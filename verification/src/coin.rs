//! Coins and transactions.

use vstd::prelude::*;
use crate::field;
use crate::field::Fr;
use crate::keys;
use crate::keys::{owner_pk_to_field_pair, OwnerPk};
use crate::merkle;
use crate::poseidon;
use crate::poseidon::Hasher;

verus! {

/// A coin: its value, the key of its owner and masking randomness. Its
/// commitment binds it to the intended owner, so nobody else can claim it even
/// when they know the value and the randomness.
#[derive(Clone, Copy, Debug, PartialEq, Eq)]
pub struct Coin {
    pub value: u64,
    pub rand: Fr,
    pub owner_pk: OwnerPk,
}

/// What a [`Coin`] holds.
pub struct CoinView {
    pub value: nat,
    pub rand: nat,
    pub owner_pk: Option<(nat, nat)>,
}

impl View for Coin {
    type V = CoinView;

    open spec fn view(&self) -> CoinView {
        CoinView { value: self.value as nat, rand: self.rand@, owner_pk: self.owner_pk@ }
    }
}

/// The commitment of a coin: the hash of its value, its randomness and the
/// coordinates of its owner's key.
pub open spec fn coin_commitment(coin: CoinView) -> nat {
    let pair = keys::coordinates(coin.owner_pk);
    poseidon::poseidon(seq![coin.value, coin.rand, pair.0, pair.1])
}

/// The commitments of coins, in order.
pub open spec fn coin_commitments(coins: Seq<Coin>) -> Seq<nat> {
    coins.map_values(|c: Coin| coin_commitment(c@))
}

impl Coin {
    pub fn commitment(&self) -> (r: Fr)
        ensures
            r@ == coin_commitment(self@),
    {
        let (px, py) = owner_pk_to_field_pair(&self.owner_pk);
        Hasher::new().hash4(Fr::from(self.value), self.rand, px, py)
    }
}

/// A transaction spends one or more input coins and creates one or more output
/// coins for (potentially different) recipients.
///
/// Only commitments appear in its body: the sender is proven through the
/// nullifier, which a board entry publishes, and the recipients are bound inside
/// the commitments. Each output's opening is encrypted in the note of the same
/// index. The spend proof is attached after proving, and the whole encrypted again.
#[derive(Clone, Debug, PartialEq, Eq)]
pub struct Transaction {
    pub id: u64,
    /// Commitments to the coins being spent.
    pub input_commitments: Vec<Fr>,
    /// Commitments to the new coins, with the same index as their notes.
    pub output_commitments: Vec<Fr>,
    /// The encrypted openings of the outputs.
    pub note_encs: Vec<Vec<u8>>,
    pub spend_proof: Vec<u8>,
}

/// What a [`Transaction`] holds.
#[verifier::ext_equal]
pub struct TransactionView {
    pub id: nat,
    pub input_commitments: Seq<nat>,
    pub output_commitments: Seq<nat>,
    pub note_encs: Seq<Seq<u8>>,
    pub spend_proof: Seq<u8>,
}

/// The contents of byte vectors.
pub open spec fn byte_seqs(v: Seq<Vec<u8>>) -> Seq<Seq<u8>> {
    v.map_values(|b: Vec<u8>| b@)
}

impl View for Transaction {
    type V = TransactionView;

    open spec fn view(&self) -> TransactionView {
        TransactionView {
            id: self.id as nat,
            input_commitments: field::fr_values(self.input_commitments@),
            output_commitments: field::fr_values(self.output_commitments@),
            note_encs: byte_seqs(self.note_encs@),
            spend_proof: self.spend_proof@,
        }
    }
}

/// Whether an element occurs among others.
pub fn fr_contains(elements: &[Fr], wanted: &Fr) -> (r: bool)
    ensures
        r == field::fr_values(elements@).contains(wanted@),
{
    let mut i: usize = 0;
    while i < elements.len()
        invariant
            i <= elements@.len(),
            forall|j: int| 0 <= j < i ==> (#[trigger] elements@[j])@ != wanted@,
        decreases elements@.len() - i,
    {
        if elements[i] == *wanted {
            assert(field::fr_values(elements@)[i as int] == wanted@);
            return true;
        }
        i += 1;
    }
    proof {
        let values = field::fr_values(elements@);
        assert forall|j: int| 0 <= j < values.len() implies values[j] != wanted@ by {
            assert(values[j] == elements@[j]@);
        }
    }
    false
}

/// A copy of field elements.
pub fn copy_frs(elements: &[Fr]) -> (r: Vec<Fr>)
    ensures
        r@ == elements@,
{
    let mut out: Vec<Fr> = Vec::new();
    let mut i: usize = 0;
    while i < elements.len()
        invariant
            i <= elements@.len(),
            out@ == elements@.take(i as int),
        decreases elements@.len() - i,
    {
        out.push(elements[i]);
        i += 1;
        assert(elements@.take(i as int) =~= elements@.take(i - 1).push(elements@[i - 1]));
    }
    assert(elements@.take(i as int) =~= elements@);
    out
}

impl Transaction {
    /// Whether the coin committed to by `cn` was received in this transaction:
    /// whether it is among the output commitments.
    pub fn receives_coin(&self, cn: &Fr) -> (r: bool)
        ensures
            r == self@.output_commitments.contains(cn@),
    {
        fr_contains(self.output_commitments.as_slice(), cn)
    }

    /// Whether the coin committed to by `cn` was spent in this transaction.
    pub fn spends_coin(&self, cn: &Fr) -> (r: bool)
        ensures
            r == self@.input_commitments.contains(cn@),
    {
        fr_contains(self.input_commitments.as_slice(), cn)
    }
}

/// A commitment binds its coin, with the owner: two coins of the same commitment are the
/// same, unless there is a collision of the hash.
pub proof fn commitment_binds_coin(a: CoinView, b: CoinView)
    requires
        keys::on_curve(a.owner_pk),
        keys::on_curve(b.owner_pk),
        coin_commitment(a) == coin_commitment(b),
    ensures
        a == b || merkle::collision_exists(),
{
    let x = keys::coordinates(a.owner_pk);
    let y = keys::coordinates(b.owner_pk);
    let left = seq![a.value, a.rand, x.0, x.1];
    let right = seq![b.value, b.rand, y.0, y.1];
    if left == right {
        assert(left[0] == a.value && left[1] == a.rand && left[2] == x.0 && left[3] == x.1);
        assert(right[0] == b.value && right[1] == b.rand && right[2] == y.0 && right[3] == y.1);
        keys::identity_pair_is_off_curve();
    } else {
        assert(merkle::collision(left, right));
    }
}

/// A commitment is the hash of the coin's value, its randomness and the two coordinates of its
/// owner's key.
pub proof fn commitment_hashes_every_part(
    c: &Coin,
    r: Fr,
    pair: (Fr, Fr),
    value: Fr,
    inputs: &[Fr],
    hash: Fr,
)
    requires
        call_ensures(Coin::commitment, (c,), r),
        call_ensures(owner_pk_to_field_pair, (&c.owner_pk,), pair),
        value@ == c.value,
        inputs@ == seq![value, c.rand, pair.0, pair.1],
        call_ensures(poseidon::poseidon_hash, (inputs,), hash),
    ensures
        r@ == hash@,
{
    assert(field::fr_values(inputs@) =~= seq![value@, c.rand@, pair.0@, pair.1@]);
}

/// A coin is received where an output has its commitment, and spent where an input has it.
pub proof fn coins_are_found_among_commitments(
    tx: &Transaction,
    cn: &Fr,
    received: bool,
    spent: bool,
)
    requires
        call_ensures(Transaction::receives_coin, (tx, cn), received),
        call_ensures(Transaction::spends_coin, (tx, cn), spent),
    ensures
        received <==> exists|i: int|
            0 <= i < tx.output_commitments@.len() && (#[trigger] tx.output_commitments@[i])@
                == cn@,
        spent <==> exists|i: int|
            0 <= i < tx.input_commitments@.len() && (#[trigger] tx.input_commitments@[i])@ == cn@,
{
    lemma_contained(tx.output_commitments@, cn@);
    lemma_contained(tx.input_commitments@, cn@);
}

proof fn lemma_contained(list: Seq<Fr>, x: nat)
    ensures
        field::fr_values(list).contains(x) == exists|i: int|
            0 <= i < list.len() && (#[trigger] list[i])@ == x,
{
    let values = field::fr_values(list);
    if exists|i: int| 0 <= i < list.len() && (#[trigger] list[i])@ == x {
        let i = choose|i: int| 0 <= i < list.len() && (#[trigger] list[i])@ == x;
        assert(values[i] == x);
    }
    if values.contains(x) {
        let i = values.index_of(x);
        assert(values[i] == list[i]@);
    }
}

} // verus!
