//! Byte encodings: field elements and points as `ark-serialize` writes them in
//! compressed form, and records as `bincode` writes them.

use vstd::prelude::*;
use vstd::arithmetic::power2::pow2;
use ark_ff::{BigInt, PrimeField};
use ark_serialize::{CanonicalDeserialize, CanonicalSerialize};
use crate::coin;
use crate::coin::{Coin, Transaction};
use crate::field;
use crate::field::Fr;
use crate::keys;
use crate::keys::OwnerPk;

verus! {

/// The first `n` base-256 digits of a number, least significant first.
pub open spec fn le_bytes(value: nat, n: nat) -> Seq<u8>
    decreases n,
{
    if n == 0 {
        Seq::empty()
    } else {
        seq![(value % 256) as u8] + le_bytes(value / 256, (n - 1) as nat)
    }
}

/// `bytes` begins with `start`.
pub open spec fn begins_with(bytes: Seq<u8>, start: Seq<u8>) -> bool {
    start.len() <= bytes.len() && bytes.take(start.len() as int) == start
}

/// Number of bytes of an encoded field element.
pub const ELEMENT_BYTES: usize = 95;

/// The encoding of a field element.
pub open spec fn fr_encoding(value: nat) -> Seq<u8> {
    le_bytes(value, 95)
}

/// The encodings of field elements, one after the other.
pub open spec fn fr_encodings(values: Seq<nat>) -> Seq<u8>
    decreases values.len(),
{
    if values.len() == 0 {
        Seq::empty()
    } else {
        fr_encoding(values[0]) + fr_encodings(values.drop_first())
    }
}

/// The encoding of a list of field elements: their number, then each of them.
pub open spec fn fr_list_encoding(values: Seq<nat>) -> Seq<u8> {
    le_bytes(values.len(), 8) + fr_encodings(values)
}

/// Values that a list of field elements can hold.
pub open spec fn are_elements(values: Seq<nat>) -> bool {
    &&& values.len() <= u64::MAX
    &&& forall|i: int| 0 <= i < values.len() ==> #[trigger] values[i] < field::fr_modulus()
}

/// The list that `bytes` begins with the encoding of.
pub open spec fn fr_list_decoded(bytes: Seq<u8>) -> Option<Seq<nat>> {
    if exists|values: Seq<nat>|
        are_elements(values) && begins_with(bytes, #[trigger] fr_list_encoding(values)) {
        Some(
            choose|values: Seq<nat>|
                are_elements(values) && begins_with(bytes, #[trigger] fr_list_encoding(values)),
        )
    } else {
        None
    }
}

/// The element that `bytes` begins with the encoding of.
pub open spec fn fr_decoded(bytes: Seq<u8>) -> Option<nat> {
    if bytes.len() >= 95 && field::bytes_value(bytes.take(95)) < field::fr_modulus() {
        Some(field::bytes_value(bytes.take(95)))
    } else {
        None
    }
}

/// The digits of a number that is short enough write that number.
pub proof fn lemma_le_bytes_value(value: nat, n: nat)
    requires
        value < pow2(8 * n),
    ensures
        le_bytes(value, n).len() == n,
        field::bytes_value(le_bytes(value, n)) == value,
    decreases n,
{
    vstd::arithmetic::power2::lemma2_to64();
    if n > 0 {
        vstd::arithmetic::power2::lemma_pow2_adds(8, (8 * (n - 1)) as nat);
        assert(value / 256 < pow2((8 * (n - 1)) as nat)) by (nonlinear_arith)
            requires
                value < 256 * pow2((8 * (n - 1)) as nat),
        ;
        lemma_le_bytes_value(value / 256, (n - 1) as nat);
        assert(le_bytes(value, n).drop_first() =~= le_bytes(value / 256, (n - 1) as nat));
    }
}

pub proof fn lemma_le_bytes_len(value: nat, n: nat)
    ensures
        le_bytes(value, n).len() == n,
    decreases n,
{
    if n > 0 {
        lemma_le_bytes_len(value / 256, (n - 1) as nat);
    }
}

/// Eight bytes hold every `u64`.
pub proof fn lemma_u64_bytes(value: nat)
    requires
        value <= u64::MAX,
    ensures
        le_bytes(value, 8).len() == 8,
        field::bytes_value(le_bytes(value, 8)) == value,
{
    vstd::arithmetic::power2::lemma2_to64();
    lemma_le_bytes_value(value, 8);
}

/// 95 bytes hold every field element.
pub proof fn lemma_element_bytes(value: nat)
    requires
        value < field::fr_modulus(),
    ensures
        fr_encoding(value).len() == 95,
        field::bytes_value(fr_encoding(value)) == value,
{
    lemma_modulus_below_760_bits();
    lemma_le_bytes_value(value, 95);
}

proof fn lemma_modulus_below_760_bits()
    ensures
        field::fr_modulus() < pow2(760),
{
    vstd::arithmetic::power2::lemma2_to64();
    vstd::arithmetic::power2::lemma_pow2_adds(64, 64);
    vstd::arithmetic::power2::lemma_pow2_adds(128, 128);
    vstd::arithmetic::power2::lemma_pow2_adds(256, 256);
    vstd::arithmetic::power2::lemma_pow2_adds(512, 128);
    vstd::arithmetic::power2::lemma_pow2_adds(640, 64);
    vstd::arithmetic::power2::lemma_pow2_adds(704, 32);
    vstd::arithmetic::power2::lemma_pow2_adds(736, 24);
    assert(pow2(128) == 0x100000000000000000000000000000000nat) by (nonlinear_arith)
        requires
            pow2(128) == pow2(64) * pow2(64),
            pow2(64) == 0x10000000000000000nat,
            pow2(64) == 0x10000000000000000nat,
    ;
    assert(pow2(256) == 0x10000000000000000000000000000000000000000000000000000000000000000nat) by (nonlinear_arith)
        requires
            pow2(256) == pow2(128) * pow2(128),
            pow2(128) == 0x100000000000000000000000000000000nat,
            pow2(128) == 0x100000000000000000000000000000000nat,
    ;
    assert(pow2(512) == 0x100000000000000000000000000000000000000000000000000000000000000000000000000000000000000000000000000000000000000000000000000000000nat) by (nonlinear_arith)
        requires
            pow2(512) == pow2(256) * pow2(256),
            pow2(256) == 0x10000000000000000000000000000000000000000000000000000000000000000nat,
            pow2(256) == 0x10000000000000000000000000000000000000000000000000000000000000000nat,
    ;
    assert(pow2(640) == 0x10000000000000000000000000000000000000000000000000000000000000000000000000000000000000000000000000000000000000000000000000000000000000000000000000000000000000000nat) by (nonlinear_arith)
        requires
            pow2(640) == pow2(512) * pow2(128),
            pow2(512) == 0x100000000000000000000000000000000000000000000000000000000000000000000000000000000000000000000000000000000000000000000000000000000nat,
            pow2(128) == 0x100000000000000000000000000000000nat,
    ;
    assert(pow2(704) == 0x100000000000000000000000000000000000000000000000000000000000000000000000000000000000000000000000000000000000000000000000000000000000000000000000000000000000000000000000000000000nat) by (nonlinear_arith)
        requires
            pow2(704) == pow2(640) * pow2(64),
            pow2(640) == 0x10000000000000000000000000000000000000000000000000000000000000000000000000000000000000000000000000000000000000000000000000000000000000000000000000000000000000000nat,
            pow2(64) == 0x10000000000000000nat,
    ;
    assert(pow2(736) == 0x10000000000000000000000000000000000000000000000000000000000000000000000000000000000000000000000000000000000000000000000000000000000000000000000000000000000000000000000000000000000000000nat) by (nonlinear_arith)
        requires
            pow2(736) == pow2(704) * pow2(32),
            pow2(704) == 0x100000000000000000000000000000000000000000000000000000000000000000000000000000000000000000000000000000000000000000000000000000000000000000000000000000000000000000000000000000000nat,
            pow2(32) == 0x100000000nat,
    ;
    assert(pow2(760) == 0x10000000000000000000000000000000000000000000000000000000000000000000000000000000000000000000000000000000000000000000000000000000000000000000000000000000000000000000000000000000000000000000000nat) by (nonlinear_arith)
        requires
            pow2(760) == pow2(736) * pow2(24),
            pow2(736) == 0x10000000000000000000000000000000000000000000000000000000000000000000000000000000000000000000000000000000000000000000000000000000000000000000000000000000000000000000000000000000000000000nat,
            pow2(24) == 0x1000000nat,
    ;
}

/// Whatever begins with a joined pair begins with its first part, and goes on with
/// its second.
pub proof fn lemma_begins_with_pair(bytes: Seq<u8>, first: Seq<u8>, second: Seq<u8>)
    ensures
        begins_with(bytes, first + second) <==> begins_with(bytes, first) && begins_with(
            bytes.skip(first.len() as int),
            second,
        ),
{
    let whole = first + second;
    if begins_with(bytes, whole) {
        assert(bytes.take(first.len() as int) =~= first) by {
            assert forall|i: int| 0 <= i < first.len() implies bytes[i] == first[i] by {
                assert(bytes.take(whole.len() as int)[i] == whole[i]);
            }
        }
        assert(bytes.skip(first.len() as int).take(second.len() as int) =~= second) by {
            assert forall|i: int| 0 <= i < second.len() implies bytes[first.len() + i]
                == second[i] by {
                assert(bytes.take(whole.len() as int)[first.len() + i] == whole[first.len() + i]);
            }
        }
    }
    if begins_with(bytes, first) && begins_with(bytes.skip(first.len() as int), second) {
        assert(bytes.take(whole.len() as int) =~= whole) by {
            assert forall|i: int| 0 <= i < whole.len() implies bytes[i] == whole[i] by {
                if i < first.len() {
                    assert(bytes.take(first.len() as int)[i] == first[i]);
                } else {
                    let rest = bytes.skip(first.len() as int);
                    assert(rest.take(second.len() as int)[i - first.len()] == second[i
                        - first.len()]);
                }
            }
        }
    }
}

/// Two starts of the same length of the same bytes are equal.
proof fn lemma_same_start(bytes: Seq<u8>, first: Seq<u8>, second: Seq<u8>)
    requires
        begins_with(bytes, first),
        begins_with(bytes, second),
        first.len() == second.len(),
    ensures
        first == second,
{
}

proof fn lemma_fr_encodings_unique(bytes: Seq<u8>, a: Seq<nat>, b: Seq<nat>)
    requires
        are_elements(a),
        are_elements(b),
        a.len() == b.len(),
        begins_with(bytes, fr_encodings(a)),
        begins_with(bytes, fr_encodings(b)),
    ensures
        a == b,
    decreases a.len(),
{
    if a.len() > 0 {
        lemma_element_bytes(a[0]);
        lemma_element_bytes(b[0]);
        lemma_begins_with_pair(bytes, fr_encoding(a[0]), fr_encodings(a.drop_first()));
        lemma_begins_with_pair(bytes, fr_encoding(b[0]), fr_encodings(b.drop_first()));
        assert(fr_encoding(a[0]) == fr_encoding(b[0]));
        assert(are_elements(a.drop_first()));
        assert(are_elements(b.drop_first()));
        lemma_fr_encodings_unique(bytes.skip(95), a.drop_first(), b.drop_first());
        assert(a =~= seq![a[0]] + a.drop_first());
        assert(b =~= seq![b[0]] + b.drop_first());
    } else {
        assert(a =~= b);
    }
}

/// Bytes begin with the encoding of at most one list of field elements.
pub proof fn lemma_fr_list_unique(bytes: Seq<u8>, a: Seq<nat>, b: Seq<nat>)
    requires
        are_elements(a),
        are_elements(b),
        begins_with(bytes, fr_list_encoding(a)),
        begins_with(bytes, fr_list_encoding(b)),
    ensures
        a == b,
{
    lemma_u64_bytes(a.len());
    lemma_u64_bytes(b.len());
    lemma_begins_with_pair(bytes, le_bytes(a.len(), 8), fr_encodings(a));
    lemma_begins_with_pair(bytes, le_bytes(b.len(), 8), fr_encodings(b));
    assert(le_bytes(a.len(), 8) == le_bytes(b.len(), 8));
    lemma_fr_encodings_unique(bytes.skip(8), a, b);
}

/// Decoding an encoded list, with anything behind it, gives the list back.
pub proof fn decoding_inverts_list_encoding(values: Seq<nat>, rest: Seq<u8>)
    requires
        are_elements(values),
    ensures
        fr_list_decoded(fr_list_encoding(values) + rest) == Some(values),
{
    let bytes = fr_list_encoding(values) + rest;
    assert(begins_with(bytes, fr_list_encoding(values))) by {
        assert(bytes.take(fr_list_encoding(values).len() as int) =~= fr_list_encoding(values));
    }
    let decoded = choose|v: Seq<nat>|
        are_elements(v) && begins_with(bytes, #[trigger] fr_list_encoding(v));
    lemma_fr_list_unique(bytes, values, decoded);
}

/// Decoding an encoded element, with anything behind it, gives the element back.
pub proof fn decoding_inverts_element_encoding(value: nat, rest: Seq<u8>)
    requires
        value < field::fr_modulus(),
    ensures
        fr_decoded(fr_encoding(value) + rest) == Some(value),
{
    lemma_element_bytes(value);
    assert((fr_encoding(value) + rest).take(95) =~= fr_encoding(value));
}


/// The encoding of a byte string in a record: its length, then its bytes.
pub open spec fn blob_encoding(blob: Seq<u8>) -> Seq<u8> {
    le_bytes(blob.len(), 8) + blob
}

/// The encodings of byte strings, one after the other.
pub open spec fn blob_encodings(blobs: Seq<Seq<u8>>) -> Seq<u8>
    decreases blobs.len(),
{
    if blobs.len() == 0 {
        Seq::empty()
    } else {
        blob_encoding(blobs[0]) + blob_encodings(blobs.drop_first())
    }
}

/// The encoding of a list of byte strings in a record: their number, then each.
pub open spec fn blob_list_encoding(blobs: Seq<Seq<u8>>) -> Seq<u8> {
    le_bytes(blobs.len(), 8) + blob_encodings(blobs)
}

/// The lengths of byte strings can be written in 64 bits.
pub open spec fn blobs_fit(blobs: Seq<Seq<u8>>) -> bool {
    &&& blobs.len() <= u64::MAX
    &&& forall|i: int| 0 <= i < blobs.len() ==> (#[trigger] blobs[i]).len() <= u64::MAX
}

/// A transaction as a record: its lists of field elements are byte strings.
#[verifier::ext_equal]
pub struct TransactionRecord {
    pub id: nat,
    pub inputs: Seq<u8>,
    pub outputs: Seq<u8>,
    pub notes: Seq<Seq<u8>>,
    pub spend_proof: Seq<u8>,
}

impl TransactionRecord {
    /// Every number and every length can be written in 64 bits.
    pub open spec fn fits(self) -> bool {
        &&& self.id <= u64::MAX
        &&& self.inputs.len() <= u64::MAX
        &&& self.outputs.len() <= u64::MAX
        &&& blobs_fit(self.notes)
        &&& self.spend_proof.len() <= u64::MAX
    }

    /// The fields in order, each in its own encoding.
    pub open spec fn encoding(self) -> Seq<u8> {
        le_bytes(self.id, 8) + (blob_encoding(self.inputs) + (blob_encoding(self.outputs) + (
        blob_list_encoding(self.notes) + blob_encoding(self.spend_proof))))
    }
}

/// A coin as a record: its field element and its point are byte strings.
#[verifier::ext_equal]
pub struct CoinRecord {
    pub value: nat,
    pub rand: Seq<u8>,
    pub owner_pk: Seq<u8>,
}

impl CoinRecord {
    /// Every number and every length can be written in 64 bits.
    pub open spec fn fits(self) -> bool {
        &&& self.value <= u64::MAX
        &&& self.rand.len() <= u64::MAX
        &&& self.owner_pk.len() <= u64::MAX
    }

    /// The fields in order, each in its own encoding.
    pub open spec fn encoding(self) -> Seq<u8> {
        le_bytes(self.value, 8) + (blob_encoding(self.rand) + blob_encoding(self.owner_pk))
    }
}

pub(crate) proof fn lemma_blob_unique(bytes: Seq<u8>, a: Seq<u8>, a_rest: Seq<u8>, b: Seq<u8>, b_rest: Seq<u8>)
    requires
        a.len() <= u64::MAX,
        b.len() <= u64::MAX,
        begins_with(bytes, blob_encoding(a) + a_rest),
        begins_with(bytes, blob_encoding(b) + b_rest),
    ensures
        a == b,
        begins_with(bytes.skip(blob_encoding(a).len() as int), a_rest),
        begins_with(bytes.skip(blob_encoding(a).len() as int), b_rest),
{
    lemma_begins_with_pair(bytes, blob_encoding(a), a_rest);
    lemma_begins_with_pair(bytes, blob_encoding(b), b_rest);
    lemma_begins_with_pair(bytes, le_bytes(a.len(), 8), a);
    lemma_begins_with_pair(bytes, le_bytes(b.len(), 8), b);
    lemma_u64_bytes(a.len());
    lemma_u64_bytes(b.len());
    assert(le_bytes(a.len(), 8) == le_bytes(b.len(), 8));
    lemma_same_start(bytes.skip(8), a, b);
}

proof fn lemma_blobs_unique(
    bytes: Seq<u8>,
    a: Seq<Seq<u8>>,
    a_rest: Seq<u8>,
    b: Seq<Seq<u8>>,
    b_rest: Seq<u8>,
)
    requires
        blobs_fit(a),
        blobs_fit(b),
        a.len() == b.len(),
        begins_with(bytes, blob_encodings(a) + a_rest),
        begins_with(bytes, blob_encodings(b) + b_rest),
    ensures
        a == b,
        begins_with(bytes.skip(blob_encodings(a).len() as int), a_rest),
        begins_with(bytes.skip(blob_encodings(a).len() as int), b_rest),
    decreases a.len(),
{
    if a.len() == 0 {
        assert(a =~= b);
        lemma_begins_with_pair(bytes, blob_encodings(a), a_rest);
        lemma_begins_with_pair(bytes, blob_encodings(b), b_rest);
    } else {
        let ta = a.drop_first();
        let tb = b.drop_first();
        assert(blobs_fit(ta)) by {
            assert forall|i: int| 0 <= i < ta.len() implies (#[trigger] ta[i]).len()
                <= u64::MAX by {
                assert(ta[i] == a[i + 1]);
            }
        }
        assert(blobs_fit(tb)) by {
            assert forall|i: int| 0 <= i < tb.len() implies (#[trigger] tb[i]).len()
                <= u64::MAX by {
                assert(tb[i] == b[i + 1]);
            }
        }
        assert(a[0].len() <= u64::MAX && b[0].len() <= u64::MAX);
        let ra = blob_encodings(ta) + a_rest;
        let rb = blob_encodings(tb) + b_rest;
        assert(blob_encodings(a) + a_rest =~= blob_encoding(a[0]) + ra);
        assert(blob_encodings(b) + b_rest =~= blob_encoding(b[0]) + rb);
        lemma_blob_unique(bytes, a[0], ra, b[0], rb);
        let n = blob_encoding(a[0]).len() as int;
        lemma_blobs_unique(bytes.skip(n), ta, a_rest, tb, b_rest);
        assert(a =~= seq![a[0]] + ta);
        assert(b =~= seq![b[0]] + tb);
        assert(bytes.skip(n).skip(blob_encodings(ta).len() as int) =~= bytes.skip(
            blob_encodings(a).len() as int,
        ));
    }
}

/// Bytes begin with the encoding of at most one transaction record.
pub proof fn lemma_transaction_record_unique(
    bytes: Seq<u8>,
    a: TransactionRecord,
    b: TransactionRecord,
)
    requires
        a.fits(),
        b.fits(),
        begins_with(bytes, a.encoding()),
        begins_with(bytes, b.encoding()),
    ensures
        a == b,
{
    let a4 = blob_encoding(a.spend_proof);
    let b4 = blob_encoding(b.spend_proof);
    let a3 = blob_list_encoding(a.notes) + a4;
    let b3 = blob_list_encoding(b.notes) + b4;
    let a2 = blob_encoding(a.outputs) + a3;
    let b2 = blob_encoding(b.outputs) + b3;
    let a1 = blob_encoding(a.inputs) + a2;
    let b1 = blob_encoding(b.inputs) + b2;
    lemma_u64_bytes(a.id);
    lemma_u64_bytes(b.id);
    lemma_begins_with_pair(bytes, le_bytes(a.id, 8), a1);
    lemma_begins_with_pair(bytes, le_bytes(b.id, 8), b1);
    assert(le_bytes(a.id, 8) == le_bytes(b.id, 8));
    let s1 = bytes.skip(8);
    lemma_blob_unique(s1, a.inputs, a2, b.inputs, b2);
    let s2 = s1.skip(blob_encoding(a.inputs).len() as int);
    lemma_blob_unique(s2, a.outputs, a3, b.outputs, b3);
    let s3 = s2.skip(blob_encoding(a.outputs).len() as int);
    let an = blob_encodings(a.notes) + a4;
    let bn = blob_encodings(b.notes) + b4;
    assert(a3 =~= le_bytes(a.notes.len(), 8) + an);
    assert(b3 =~= le_bytes(b.notes.len(), 8) + bn);
    lemma_u64_bytes(a.notes.len());
    lemma_u64_bytes(b.notes.len());
    lemma_begins_with_pair(s3, le_bytes(a.notes.len(), 8), an);
    lemma_begins_with_pair(s3, le_bytes(b.notes.len(), 8), bn);
    assert(le_bytes(a.notes.len(), 8) == le_bytes(b.notes.len(), 8));
    let s4 = s3.skip(8);
    lemma_blobs_unique(s4, a.notes, a4, b.notes, b4);
    let s5 = s4.skip(blob_encodings(a.notes).len() as int);
    assert(a4 =~= blob_encoding(a.spend_proof) + Seq::empty());
    assert(b4 =~= blob_encoding(b.spend_proof) + Seq::empty());
    lemma_blob_unique(s5, a.spend_proof, Seq::empty(), b.spend_proof, Seq::empty());
}

/// Bytes begin with the encoding of at most one coin record.
pub proof fn lemma_coin_record_unique(bytes: Seq<u8>, a: CoinRecord, b: CoinRecord)
    requires
        a.fits(),
        b.fits(),
        begins_with(bytes, a.encoding()),
        begins_with(bytes, b.encoding()),
    ensures
        a == b,
{
    let a2 = blob_encoding(a.owner_pk);
    let b2 = blob_encoding(b.owner_pk);
    let a1 = blob_encoding(a.rand) + a2;
    let b1 = blob_encoding(b.rand) + b2;
    lemma_u64_bytes(a.value);
    lemma_u64_bytes(b.value);
    lemma_begins_with_pair(bytes, le_bytes(a.value, 8), a1);
    lemma_begins_with_pair(bytes, le_bytes(b.value, 8), b1);
    assert(le_bytes(a.value, 8) == le_bytes(b.value, 8));
    let s1 = bytes.skip(8);
    lemma_blob_unique(s1, a.rand, a2, b.rand, b2);
    let s2 = s1.skip(blob_encoding(a.rand).len() as int);
    assert(a2 =~= blob_encoding(a.owner_pk) + Seq::empty());
    assert(b2 =~= blob_encoding(b.owner_pk) + Seq::empty());
    lemma_blob_unique(s2, a.owner_pk, Seq::empty(), b.owner_pk, Seq::empty());
}


/// A coordinate is the larger of the two square roots.
pub open spec fn is_larger_root(y: nat) -> bool {
    2 * y > field::fr_modulus()
}

/// The encoding of a point: its first coordinate, with a flag in the top bit where
/// the second one is the larger root; the identity is a zero with a flag of its own.
pub open spec fn point_encoding(point: Option<(nat, nat)>) -> Seq<u8> {
    match point {
        None => fr_encoding(0).update(94, 0x40u8),
        Some((x, y)) => if is_larger_root(y) {
            fr_encoding(x).update(94, fr_encoding(x)[94] | 0x80u8)
        } else {
            fr_encoding(x)
        },
    }
}

/// What may stand for the identity: any element, with the identity's flag.
pub open spec fn identity_encoding(x: nat) -> Seq<u8> {
    fr_encoding(x).update(94, fr_encoding(x)[94] | 0x40u8)
}

/// Bytes begin with what stands for a point of the curve.
pub open spec fn begins_with_point(bytes: Seq<u8>, point: Option<(nat, nat)>) -> bool {
    &&& keys::on_curve(point)
    &&& match point {
        Some(_) => begins_with(bytes, point_encoding(point)),
        None => exists|x: nat|
            x < field::fr_modulus() && begins_with(bytes, #[trigger] identity_encoding(x)),
    }
}

/// The point that bytes begin with the encoding of.
pub open spec fn point_decoded(bytes: Seq<u8>) -> Option<Option<(nat, nat)>> {
    if exists|point: Option<(nat, nat)>| begins_with_point(bytes, point) {
        Some(choose|point: Option<(nat, nat)>| begins_with_point(bytes, point))
    } else {
        None
    }
}

/// `CanonicalSerialize::serialize_compressed` of `ark-ff` on one element: 95
/// little-endian bytes.
#[verifier::external_body]
pub(crate) fn encode_fr(x: &Fr) -> (r: Vec<u8>)
    ensures
        r@ == fr_encoding(x@),
{
    let mut out: Vec<u8> = Vec::new();
    let element = ark_mnt4_753::Fr::from_bigint(BigInt(x.limbs)).unwrap();
    element.serialize_compressed(&mut out).unwrap();
    out
}

/// `CanonicalDeserialize::deserialize_compressed` of `ark-ff` for one element: it
/// reads 95 bytes, ignores what follows, and fails where there are fewer or where
/// they write a number that is not below the modulus.
#[verifier::external_body]
pub(crate) fn decode_fr(bytes: &[u8]) -> (r: Option<Fr>)
    ensures
        r is Some == fr_decoded(bytes@) is Some,
        r matches Some(x) ==> fr_decoded(bytes@) == Some(x@),
{
    let element = ark_mnt4_753::Fr::deserialize_compressed(bytes).ok()?;
    Some(Fr { limbs: element.into_bigint().0 })
}

/// `CanonicalSerialize::serialize_compressed` of `ark-serialize` on a vector of
/// elements: their number in eight little-endian bytes, then each element.
#[verifier::external_body]
pub(crate) fn encode_fr_list(list: &[Fr]) -> (r: Vec<u8>)
    ensures
        r@ == fr_list_encoding(field::fr_values(list@)),
{
    let mut out: Vec<u8> = Vec::new();
    let elements: Vec<ark_mnt4_753::Fr> = list.iter().map(
        |x| ark_mnt4_753::Fr::from_bigint(BigInt(x.limbs)).unwrap(),
    ).collect();
    elements.serialize_compressed(&mut out).unwrap();
    out
}

/// `CanonicalDeserialize::deserialize_compressed` of `ark-serialize` for a vector of
/// elements: it reads one list, ignores what follows, and fails where the bytes begin
/// with the encoding of none. It reserves memory for as many elements as the bytes
/// announce before it reads any, so the announced number must fit the bytes.
#[verifier::external_body]
fn read_fr_list(bytes: &[u8]) -> (r: Option<Vec<Fr>>)
    requires
        8 <= bytes@.len(),
        8 + 95 * field::bytes_value(bytes@.take(8)) <= bytes@.len(),
    ensures
        match r {
            Some(list) => begins_with(bytes@, fr_list_encoding(field::fr_values(list@)))
                && are_elements(field::fr_values(list@)),
            None => forall|values: Seq<nat>|
                are_elements(values) ==> !begins_with(bytes@, #[trigger] fr_list_encoding(values)),
        },
{
    let elements = Vec::<ark_mnt4_753::Fr>::deserialize_compressed(bytes).ok()?;
    Some(elements.into_iter().map(|x| Fr { limbs: x.into_bigint().0 }).collect())
}

/// `CanonicalSerialize::serialize_compressed` of `ark-ec` on a point: the first
/// coordinate and flags in 95 bytes. For a point of the curve, decoding these bytes,
/// whatever follows them, gives the point back.
#[verifier::external_body]
pub(crate) fn encode_point(pk: &OwnerPk) -> (r: Vec<u8>)
    ensures
        r@ == point_encoding(pk@),
        keys::on_curve(pk@) ==> forall|rest: Seq<u8>| #[trigger]
            point_decoded(r@ + rest) == Some(pk@),
{
    let lift = |c: Fr| ark_mnt4_753::Fr::from_bigint(BigInt(c.limbs)).unwrap();
    let point = match *pk {
        OwnerPk::Infinity => ark_mnt6_753::G1Affine::identity(),
        OwnerPk::Point { x, y } => ark_mnt6_753::G1Affine::new_unchecked(lift(x), lift(y)),
    };
    let mut out: Vec<u8> = Vec::new();
    point.serialize_compressed(&mut out).unwrap();
    out
}

/// `CanonicalDeserialize::deserialize_compressed` of `ark-ec` for a point: it reads 95 bytes,
/// ignores what follows, and gives the point of the curve that they encode, of which there is
/// at most one. With the identity's flag any element is accepted. It fails where there is no
/// such point, where the flags contradict each other, and where there are too few bytes. The
/// group has prime order, so no point of the curve has zero for its second coordinate.
#[verifier::external_body]
pub(crate) fn decode_point(bytes: &[u8]) -> (r: Option<OwnerPk>)
    ensures
        r is Some == point_decoded(bytes@) is Some,
        r matches Some(pk) ==> point_decoded(bytes@) == Some(pk@) && keys::on_curve(pk@),
{
    let point = ark_mnt6_753::G1Affine::deserialize_compressed(bytes).ok()?;
    Some(
        if point.infinity {
            OwnerPk::Infinity
        } else {
            OwnerPk::Point {
                x: Fr { limbs: point.x.into_bigint().0 },
                y: Fr { limbs: point.y.into_bigint().0 },
            }
        },
    )
}

/// The number that the first eight bytes write.
pub(crate) fn leading_u64(bytes: &[u8]) -> (r: u64)
    requires
        bytes@.len() >= 8,
    ensures
        r == field::bytes_value(bytes@.take(8)),
{
    let mut value: u64 = 0;
    let mut i: usize = 8;
    let ghost head = bytes@.take(8);
    proof {
        assert(head.skip(8).len() == 0);
        vstd::arithmetic::power2::lemma2_to64();
    }
    while i > 0
        invariant
            i <= 8 <= bytes@.len(),
            head == bytes@.take(8),
            value == field::bytes_value(head.skip(i as int)),
            value < pow2((8 * (8 - i)) as nat),
            pow2(64) == 0x1_0000_0000_0000_0000,
        decreases i,
    {
        i -= 1;
        proof {
            vstd::arithmetic::power2::lemma2_to64();
            vstd::arithmetic::power2::lemma_pow2_adds(8, (8 * (8 - i - 1)) as nat);
            if i > 0 {
                vstd::arithmetic::power2::lemma_pow2_strictly_increases((8 * (8 - i)) as nat, 64);
            }
            assert(head.skip(i as int).drop_first() =~= head.skip(i + 1));
            assert(head.skip(i as int)[0] == bytes@[i as int]);
        }
        value = value * 256 + bytes[i] as u64;
    }
    assert(head.skip(0) =~= head);
    value
}

proof fn lemma_fr_encodings_len(values: Seq<nat>)
    ensures
        fr_encodings(values).len() == 95 * values.len(),
    decreases values.len(),
{
    if values.len() > 0 {
        lemma_le_bytes_len(values[0], 95);
        lemma_fr_encodings_len(values.drop_first());
    }
}

/// Decode a list of field elements; what follows it is ignored.
pub fn decode_fr_list(bytes: &[u8]) -> (r: Option<Vec<Fr>>)
    ensures
        r is Some == fr_list_decoded(bytes@) is Some,
        r matches Some(list) ==> fr_list_decoded(bytes@) == Some(field::fr_values(list@)),
{
    proof {
        assert forall|values: Seq<nat>|
            are_elements(values) && begins_with(
                bytes@,
                #[trigger] fr_list_encoding(values),
            ) implies bytes@.len() >= 8 && 8 + 95 * field::bytes_value(bytes@.take(8))
            <= bytes@.len() by {
            lemma_u64_bytes(values.len());
            lemma_begins_with_pair(bytes@, le_bytes(values.len(), 8), fr_encodings(values));
            lemma_fr_encodings_len(values);
        }
    }
    if bytes.len() < 8 {
        return None;
    }
    let count = leading_u64(bytes);
    let room: usize = (bytes.len() - 8) / 95;
    if count > room as u64 {
        return None;
    }
    let r = read_fr_list(bytes);
    proof {
        if r is Some {
            let values = field::fr_values(r->0@);
            let decoded = choose|v: Seq<nat>|
                are_elements(v) && begins_with(bytes@, #[trigger] fr_list_encoding(v));
            assert(begins_with(bytes@, fr_list_encoding(values)));
            lemma_fr_list_unique(bytes@, values, decoded);
        }
    }
    r
}


/// `bincode::serialize` on the fields of a transaction record: fixed-width
/// little-endian numbers, and every byte string and list behind its length.
#[verifier::external_body]
fn write_transaction_record(
    id: u64,
    inputs: &Vec<u8>,
    outputs: &Vec<u8>,
    notes: &Vec<Vec<u8>>,
    spend_proof: &Vec<u8>,
) -> (r: Vec<u8>)
    ensures
        r@ == (TransactionRecord {
            id: id as nat,
            inputs: inputs@,
            outputs: outputs@,
            notes: coin::byte_seqs(notes@),
            spend_proof: spend_proof@,
        }).encoding(),
{
    bincode::serialize(&(id, inputs, outputs, notes, spend_proof)).unwrap()
}

/// `bincode::deserialize` for the fields of a transaction record: it reads one
/// record, ignores what follows, and fails where the bytes begin with the encoding
/// of none.
#[verifier::external_body]
fn read_transaction_record(bytes: &[u8]) -> (r: Option<
    (u64, Vec<u8>, Vec<u8>, Vec<Vec<u8>>, Vec<u8>),
>)
    ensures
        match r {
            Some((id, inputs, outputs, notes, spend_proof)) => {
                let record = TransactionRecord {
                    id: id as nat,
                    inputs: inputs@,
                    outputs: outputs@,
                    notes: coin::byte_seqs(notes@),
                    spend_proof: spend_proof@,
                };
                record.fits() && begins_with(bytes@, record.encoding())
            },
            None => forall|record: TransactionRecord|
                record.fits() ==> !begins_with(bytes@, #[trigger] record.encoding()),
        },
{
    bincode::deserialize(bytes).ok()
}

/// `bincode::serialize` on the fields of a coin record: fixed-width little-endian
/// numbers, and every byte string behind its length.
#[verifier::external_body]
fn write_coin_record(value: u64, rand: &Vec<u8>, owner_pk: &Vec<u8>) -> (r: Vec<u8>)
    ensures
        r@ == (CoinRecord { value: value as nat, rand: rand@, owner_pk: owner_pk@ }).encoding(),
{
    bincode::serialize(&(value, rand, owner_pk)).unwrap()
}

/// `bincode::deserialize` for the fields of a coin record: it reads one record,
/// ignores what follows, and fails where the bytes begin with the encoding of none.
#[verifier::external_body]
fn read_coin_record(bytes: &[u8]) -> (r: Option<(u64, Vec<u8>, Vec<u8>)>)
    ensures
        match r {
            Some((value, rand, owner_pk)) => {
                let record = CoinRecord {
                    value: value as nat,
                    rand: rand@,
                    owner_pk: owner_pk@,
                };
                record.fits() && begins_with(bytes@, record.encoding())
            },
            None => forall|record: CoinRecord|
                record.fits() ==> !begins_with(bytes@, #[trigger] record.encoding()),
        },
{
    bincode::deserialize(bytes).ok()
}

/// The record that bytes begin with the encoding of.
pub open spec fn transaction_record_decoded(bytes: Seq<u8>) -> Option<TransactionRecord> {
    if exists|record: TransactionRecord|
        record.fits() && begins_with(bytes, #[trigger] record.encoding()) {
        Some(
            choose|record: TransactionRecord|
                record.fits() && begins_with(bytes, #[trigger] record.encoding()),
        )
    } else {
        None
    }
}

/// The record that bytes begin with the encoding of.
pub open spec fn coin_record_decoded(bytes: Seq<u8>) -> Option<CoinRecord> {
    if exists|record: CoinRecord|
        record.fits() && begins_with(bytes, #[trigger] record.encoding()) {
        Some(
            choose|record: CoinRecord|
                record.fits() && begins_with(bytes, #[trigger] record.encoding()),
        )
    } else {
        None
    }
}

/// A transaction as a record.
pub open spec fn transaction_record(tx: coin::TransactionView) -> TransactionRecord {
    TransactionRecord {
        id: tx.id,
        inputs: fr_list_encoding(tx.input_commitments),
        outputs: fr_list_encoding(tx.output_commitments),
        notes: tx.note_encs,
        spend_proof: tx.spend_proof,
    }
}

/// The encoding of a transaction.
pub open spec fn transaction_encoding(tx: coin::TransactionView) -> Seq<u8> {
    transaction_record(tx).encoding()
}

/// The transaction that bytes begin with the encoding of.
pub open spec fn transaction_decoded(bytes: Seq<u8>) -> Option<coin::TransactionView> {
    match transaction_record_decoded(bytes) {
        None => None,
        Some(record) => match (fr_list_decoded(record.inputs), fr_list_decoded(record.outputs)) {
            (Some(input_commitments), Some(output_commitments)) => Some(
                coin::TransactionView {
                    id: record.id,
                    input_commitments,
                    output_commitments,
                    note_encs: record.notes,
                    spend_proof: record.spend_proof,
                },
            ),
            _ => None,
        },
    }
}

/// The encoding of a coin.
pub open spec fn coin_encoding(c: coin::CoinView) -> Seq<u8> {
    (CoinRecord {
        value: c.value,
        rand: fr_encoding(c.rand),
        owner_pk: point_encoding(c.owner_pk),
    }).encoding()
}

/// The coin that bytes begin with the encoding of.
pub open spec fn coin_decoded(bytes: Seq<u8>) -> Option<coin::CoinView> {
    match coin_record_decoded(bytes) {
        None => None,
        Some(record) => match (fr_decoded(record.rand), point_decoded(record.owner_pk)) {
            (Some(rand), Some(owner_pk)) => Some(
                coin::CoinView { value: record.value, rand, owner_pk },
            ),
            _ => None,
        },
    }
}

/// Encode a transaction. All its lengths can be written.
pub fn encode_transaction(tx: &Transaction) -> (r: Vec<u8>)
    ensures
        r@ == transaction_encoding(tx@),
        transaction_record(tx@).fits(),
{
    let inputs = encode_fr_list(tx.input_commitments.as_slice());
    let outputs = encode_fr_list(tx.output_commitments.as_slice());
    proof {
        let record = transaction_record(tx@);
        assert(record.inputs.len() == inputs.len());
        assert(record.outputs.len() == outputs.len());
        assert(record.notes.len() == tx.note_encs.len());
        assert forall|i: int| 0 <= i < record.notes.len() implies (#[trigger] record.notes[i]).len()
            <= u64::MAX by {
            assert(record.notes[i].len() == tx.note_encs@[i].len());
        }
        assert(record.spend_proof.len() == tx.spend_proof.len());
    }
    write_transaction_record(tx.id, &inputs, &outputs, &tx.note_encs, &tx.spend_proof)
}

/// Decode a transaction; what follows it is ignored.
pub fn decode_transaction(bytes: &[u8]) -> (r: Option<Transaction>)
    ensures
        r is Some == transaction_decoded(bytes@) is Some,
        r matches Some(tx) ==> transaction_decoded(bytes@) == Some(tx@),
{
    match read_transaction_record(bytes) {
        None => None,
        Some((id, inputs, outputs, note_encs, spend_proof)) => {
            proof {
                let record = TransactionRecord {
                    id: id as nat,
                    inputs: inputs@,
                    outputs: outputs@,
                    notes: coin::byte_seqs(note_encs@),
                    spend_proof: spend_proof@,
                };
                assert(begins_with(bytes@, record.encoding()));
                lemma_transaction_record_unique(
                    bytes@,
                    record,
                    transaction_record_decoded(bytes@)->0,
                );
            }
            let input_commitments = decode_fr_list(inputs.as_slice());
            let output_commitments = decode_fr_list(outputs.as_slice());
            match (input_commitments, output_commitments) {
                (Some(input_commitments), Some(output_commitments)) => {
                    let tx = Transaction {
                        id,
                        input_commitments,
                        output_commitments,
                        note_encs,
                        spend_proof,
                    };
                    Some(tx)
                },
                _ => None,
            }
        },
    }
}

/// Encode a coin. For an owner on the curve, decoding gives the coin back.
pub fn encode_coin(c: &Coin) -> (r: Vec<u8>)
    ensures
        r@ == coin_encoding(c@),
        keys::on_curve(c.owner_pk@) ==> forall|rest: Seq<u8>| #[trigger]
            coin_decoded(r@ + rest) == Some(c@),
{
    let rand = encode_fr(&c.rand);
    let owner_pk = encode_point(&c.owner_pk);
    let out = write_coin_record(c.value, &rand, &owner_pk);
    proof {
        if keys::on_curve(c.owner_pk@) {
            use_type_invariant(&c.rand);
            assert forall|rest: Seq<u8>| #[trigger]
                coin_decoded(out@ + rest) == Some(c@) by {
                let bytes = out@ + rest;
                let record = CoinRecord {
                    value: c.value as nat,
                    rand: rand@,
                    owner_pk: owner_pk@,
                };
                lemma_element_bytes(c.rand@);
                lemma_point_encoding_len(c.owner_pk@);
                assert(record.fits());
                assert(begins_with(bytes, record.encoding())) by {
                    assert(bytes.take(out@.len() as int) =~= out@);
                }
                lemma_coin_record_unique(bytes, record, coin_record_decoded(bytes)->0);
                decoding_inverts_element_encoding(c.rand@, Seq::empty());
                assert(rand@ + Seq::<u8>::empty() =~= rand@);
                assert(owner_pk@ + Seq::<u8>::empty() =~= owner_pk@);
                assert(point_decoded(owner_pk@ + Seq::<u8>::empty()) == Some(c.owner_pk@));
            }
        }
    }
    out
}

pub(crate) proof fn lemma_point_encoding_len(point: Option<(nat, nat)>)
    ensures
        point_encoding(point).len() == 95,
{
    lemma_le_bytes_len(0, 95);
    if let Some((x, y)) = point {
        lemma_le_bytes_len(x, 95);
    }
}

/// Decode a coin; what follows it is ignored.
pub fn decode_coin(bytes: &[u8]) -> (r: Option<Coin>)
    ensures
        r is Some == coin_decoded(bytes@) is Some,
        r matches Some(c) ==> coin_decoded(bytes@) == Some(c@),
{
    match read_coin_record(bytes) {
        None => None,
        Some((value, rand, owner_pk)) => {
            proof {
                let record = CoinRecord { value: value as nat, rand: rand@, owner_pk: owner_pk@ };
                assert(begins_with(bytes@, record.encoding()));
                lemma_coin_record_unique(bytes@, record, coin_record_decoded(bytes@)->0);
            }
            match (decode_fr(rand.as_slice()), decode_point(owner_pk.as_slice())) {
                (Some(rand), Some(owner_pk)) => Some(Coin { value, rand, owner_pk }),
                _ => None,
            }
        },
    }
}

/// A transaction that can be held in memory: its numbers are field elements and its
/// lengths can be written in 64 bits.
pub open spec fn transaction_fits(tx: coin::TransactionView) -> bool {
    &&& transaction_record(tx).fits()
    &&& are_elements(tx.input_commitments)
    &&& are_elements(tx.output_commitments)
}

/// Decoding an encoded transaction, with anything behind it, gives the transaction back.
pub proof fn decoding_inverts_transaction_encoding(tx: coin::TransactionView, rest: Seq<u8>)
    requires
        transaction_fits(tx),
    ensures
        transaction_decoded(transaction_encoding(tx) + rest) == Some(tx),
{
    let bytes = transaction_encoding(tx) + rest;
    let record = transaction_record(tx);
    assert(begins_with(bytes, record.encoding())) by {
        assert(bytes.take(record.encoding().len() as int) =~= record.encoding());
    }
    lemma_transaction_record_unique(bytes, record, transaction_record_decoded(bytes)->0);
    decoding_inverts_list_encoding(tx.input_commitments, Seq::empty());
    decoding_inverts_list_encoding(tx.output_commitments, Seq::empty());
    assert(record.inputs + Seq::<u8>::empty() =~= record.inputs);
    assert(record.outputs + Seq::<u8>::empty() =~= record.outputs);
}

/// Bytes are the digits of the number that they write, and there is no other way to write it
/// with as many.
pub proof fn digits_of_the_value_are_the_bytes(bytes: Seq<u8>)
    ensures
        le_bytes(field::bytes_value(bytes), bytes.len()) == bytes,
    decreases bytes.len(),
{
    let value = field::bytes_value(bytes);
    if bytes.len() > 0 {
        digits_of_the_value_are_the_bytes(bytes.drop_first());
        assert(value % 256 == bytes[0]);
        assert(value / 256 == field::bytes_value(bytes.drop_first()));
        assert(le_bytes(value, bytes.len()) =~= seq![bytes[0]] + bytes.drop_first());
    }
    assert(le_bytes(value, bytes.len()) =~= bytes);
}

/// A transaction survives encoding and decoding, whatever follows it.
pub proof fn transaction_survives_encoding(
    tx: &Transaction,
    encoded: Vec<u8>,
    bytes: &[u8],
    decoded: Option<Transaction>,
)
    requires
        call_ensures(encode_transaction, (tx,), encoded),
        begins_with(bytes@, encoded@),
        call_ensures(decode_transaction, (bytes,), decoded),
        are_elements(tx@.input_commitments),
        are_elements(tx@.output_commitments),
    ensures
        decoded is Some,
        ({
            let back = decoded->0;
            &&& back@ == tx@
            &&& back.id == tx.id
            &&& field::fr_values(back.input_commitments@) == field::fr_values(tx.input_commitments@)
            &&& field::fr_values(back.output_commitments@) == field::fr_values(
                tx.output_commitments@,
            )
            &&& back.spend_proof@ == tx.spend_proof@
            &&& back.note_encs@.len() == tx.note_encs@.len()
            &&& forall|i: int|
                0 <= i < tx.note_encs@.len() ==> (#[trigger] back.note_encs@[i])@
                    == tx.note_encs@[i]@
        }),
{
    decoding_inverts_transaction_encoding(tx@, bytes@.skip(encoded@.len() as int));
    assert(bytes@ =~= encoded@ + bytes@.skip(encoded@.len() as int));
    let back = decoded->0;
    assert(back@.id == back.id as nat && tx@.id == tx.id as nat);
    assert(back@.note_encs.len() == back.note_encs@.len());
    assert(tx@.note_encs.len() == tx.note_encs@.len());
    assert forall|i: int| 0 <= i < tx.note_encs@.len() implies (#[trigger] back.note_encs@[i])@
        == tx.note_encs@[i]@ by {
        assert(back@.note_encs[i] == back.note_encs@[i]@);
        assert(tx@.note_encs[i] == tx.note_encs@[i]@);
    }
}

/// Different transactions are encoded differently, and no encoding begins another one.
pub proof fn encoding_determines_transaction(
    first: &Transaction,
    second: &Transaction,
    first_bytes: Vec<u8>,
    second_bytes: Vec<u8>,
)
    requires
        call_ensures(encode_transaction, (first,), first_bytes),
        call_ensures(encode_transaction, (second,), second_bytes),
        begins_with(first_bytes@, second_bytes@),
        are_elements(first@.input_commitments),
        are_elements(first@.output_commitments),
        are_elements(second@.input_commitments),
        are_elements(second@.output_commitments),
    ensures
        first@ == second@,
{
    let rest = first_bytes@.skip(second_bytes@.len() as int);
    assert(first_bytes@ =~= second_bytes@ + rest);
    decoding_inverts_transaction_encoding(second@, rest);
    decoding_inverts_transaction_encoding(first@, Seq::empty());
    assert(first_bytes@ + Seq::<u8>::empty() =~= first_bytes@);
}

/// A coin with an owner on the curve survives encoding and decoding, whatever follows it.
pub proof fn coin_survives_encoding(
    c: &Coin,
    encoded: Vec<u8>,
    bytes: &[u8],
    decoded: Option<Coin>,
)
    requires
        call_ensures(encode_coin, (c,), encoded),
        begins_with(bytes@, encoded@),
        call_ensures(decode_coin, (bytes,), decoded),
        keys::on_curve(c.owner_pk@),
    ensures
        decoded is Some,
        decoded->0.value == c.value,
        decoded->0.rand@ == c.rand@,
        decoded->0.owner_pk@ == c.owner_pk@,
{
    assert(decoded is Some ==> decoded->0@.value == decoded->0.value as nat);
    assert(bytes@ =~= encoded@ + bytes@.skip(encoded@.len() as int));
}

/// A list of elements is read back from its length in eight bytes and 95 bytes for each
/// element: what is read is what bytes say, and nothing is read where they say too little or an
/// element is not canonical.
pub proof fn list_is_read_element_by_element(bytes: &[u8], r: Option<Vec<Fr>>, i: int)
    requires
        call_ensures(decode_fr_list, (bytes,), r),
    ensures
        r matches Some(list) ==> {
            &&& bytes@.len() >= 8 + 95 * list@.len()
            &&& field::bytes_value(bytes@.take(8)) == list@.len()
            &&& 0 <= i < list@.len() ==> field::bytes_value(
                bytes@.subrange(8 + 95 * i, 103 + 95 * i),
            ) == list@[i]@
        },
{
    if let Some(list) = r {
        let values = field::fr_values(list@);
        let found = choose|v: Seq<nat>|
            are_elements(v) && begins_with(bytes@, #[trigger] fr_list_encoding(v));
        assert(found == values);
        assert(begins_with(bytes@, fr_list_encoding(values)));
        lemma_u64_bytes(values.len());
        lemma_begins_with_pair(bytes@, le_bytes(values.len(), 8), fr_encodings(values));
        lemma_fr_encodings_len(values);
        if 0 <= i < values.len() {
            lemma_encoded_element(bytes@.skip(8), values, i);
            assert(bytes@.skip(8).subrange(95 * i, 95 * i + 95) =~= bytes@.subrange(
                8 + 95 * i,
                103 + 95 * i,
            ));
            assert(values[i] == list@[i]@);
        }
    }
}

proof fn lemma_encoded_element(bytes: Seq<u8>, values: Seq<nat>, i: int)
    requires
        are_elements(values),
        begins_with(bytes, fr_encodings(values)),
        0 <= i < values.len(),
    ensures
        95 * i + 95 <= bytes.len(),
        field::bytes_value(bytes.subrange(95 * i, 95 * i + 95)) == values[i],
    decreases i,
{
    lemma_element_bytes(values[0]);
    lemma_begins_with_pair(bytes, fr_encoding(values[0]), fr_encodings(values.drop_first()));
    if i == 0 {
        assert(bytes.subrange(0, 95) =~= fr_encoding(values[0]));
    } else {
        lemma_encoded_element(bytes.skip(95), values.drop_first(), i - 1);
        assert(bytes.skip(95).subrange(95 * (i - 1), 95 * (i - 1) + 95) =~= bytes.subrange(
            95 * i,
            95 * i + 95,
        ));
    }
}

} // verus!
