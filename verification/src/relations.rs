//! The two relations that proofs are about: that a coin was received, and that a spend
//! is valid. The circuits enforce the same relations.

use vstd::prelude::*;
use vstd::arithmetic::power2::pow2;
use crate::board;
use crate::board::{merkle_leaf, BoardEntry};
use crate::codec;
use crate::codec::{encode_fr, encode_fr_list, encode_point};
use crate::coin;
use crate::coin::{copy_frs, fr_contains, Coin, Transaction};
use crate::envelope;
use crate::envelope::own_nullifier;
use crate::field;
use crate::field::{Fr, OwnerScalar};
use crate::keys;
use crate::keys::{derive_owner_pk, genesis_pk, OwnerPk};
use crate::merkle;
use crate::merkle::compute_root_from_path;
use crate::nullifier;
use crate::nullifier::{verify_nonmembership, NonMembershipWitness};
use crate::poseidon;

verus! {

/// The public values of the spend relation.
///
/// The board root is that of the board before the transaction was posted, so the
/// proof commits to a root that does not hold itself, and can be embedded in the
/// transaction. The output commitments let a recipient's receipt verify this proof and
/// find its own commitment, which chains custody from one spend to the next. The
/// spender's key is not among them.
#[derive(Clone, Debug, PartialEq, Eq)]
pub struct ValidPublicValues {
    pub vkey: [u32; 8],
    pub board_root: Fr,
    /// The commitments that the spend creates.
    pub output_commitments: Vec<Fr>,
    /// The accumulator's root just before this spend.
    pub nullifier_root: Fr,
}

/// What [`ValidPublicValues`] hold.
#[verifier::ext_equal]
pub struct SpendValuesView {
    pub vkey: Seq<u32>,
    pub board_root: nat,
    pub output_commitments: Seq<nat>,
    pub nullifier_root: nat,
}

impl View for ValidPublicValues {
    type V = SpendValuesView;

    open spec fn view(&self) -> SpendValuesView {
        SpendValuesView {
            vkey: self.vkey@,
            board_root: self.board_root@,
            output_commitments: field::fr_values(self.output_commitments@),
            nullifier_root: self.nullifier_root@,
        }
    }
}

/// The public values of a coin's receipt.
#[derive(Clone, Debug, PartialEq)]
pub struct CoinReceiptPublicValues {
    pub vkey: [u32; 8],
    pub owner_pk: OwnerPk,
    pub coin_commitment: Fr,
    pub board_root: Fr,
    pub received_at: u64,
}

/// What [`CoinReceiptPublicValues`] hold.
#[verifier::ext_equal]
pub struct ReceiptValuesView {
    pub vkey: Seq<u32>,
    pub owner_pk: Option<(nat, nat)>,
    pub coin_commitment: nat,
    pub board_root: nat,
    pub received_at: nat,
}

impl View for CoinReceiptPublicValues {
    type V = ReceiptValuesView;

    open spec fn view(&self) -> ReceiptValuesView {
        ReceiptValuesView {
            vkey: self.vkey@,
            owner_pk: self.owner_pk@,
            coin_commitment: self.coin_commitment@,
            board_root: self.board_root@,
            received_at: self.received_at as nat,
        }
    }
}

/// The encoding of 32-bit words, one after the other.
pub open spec fn words_encoding(words: Seq<u32>) -> Seq<u8>
    decreases words.len(),
{
    if words.len() == 0 {
        Seq::empty()
    } else {
        codec::le_bytes(words[0] as nat, 4) + words_encoding(words.drop_first())
    }
}

/// The encoding of spend values.
pub open spec fn spend_values_encoding(values: SpendValuesView) -> Seq<u8> {
    words_encoding(values.vkey) + codec::blob_encoding(codec::fr_encoding(values.board_root))
        + codec::blob_encoding(codec::fr_list_encoding(values.output_commitments))
        + codec::blob_encoding(codec::fr_encoding(values.nullifier_root))
}

/// The encoding of receipt values.
pub open spec fn receipt_values_encoding(values: ReceiptValuesView) -> Seq<u8> {
    words_encoding(values.vkey) + codec::blob_encoding(codec::point_encoding(values.owner_pk))
        + codec::blob_encoding(codec::fr_encoding(values.coin_commitment))
        + codec::blob_encoding(codec::fr_encoding(values.board_root)) + codec::le_bytes(
        values.received_at,
        8,
    )
}

/// `bincode::serialize` on the fields of spend values: the words of the key, then the
/// three byte strings, each behind its length.
#[verifier::external_body]
fn write_spend_values(
    vkey: &[u32; 8],
    board_root: &Vec<u8>,
    output_commitments: &Vec<u8>,
    nullifier_root: &Vec<u8>,
) -> (r: Vec<u8>)
    ensures
        r@ == words_encoding(vkey@) + codec::blob_encoding(board_root@) + codec::blob_encoding(
            output_commitments@,
        ) + codec::blob_encoding(nullifier_root@),
{
    bincode::serialize(&(vkey, board_root, output_commitments, nullifier_root)).unwrap()
}

/// `bincode::serialize` on the fields of receipt values: the words of the key, the
/// three byte strings, each behind its length, and the slot.
#[verifier::external_body]
fn write_receipt_values(
    vkey: &[u32; 8],
    owner_pk: &Vec<u8>,
    coin_commitment: &Vec<u8>,
    board_root: &Vec<u8>,
    received_at: u64,
) -> (r: Vec<u8>)
    ensures
        r@ == words_encoding(vkey@) + codec::blob_encoding(owner_pk@) + codec::blob_encoding(
            coin_commitment@,
        ) + codec::blob_encoding(board_root@) + codec::le_bytes(received_at as nat, 8),
{
    bincode::serialize(&(vkey, owner_pk, coin_commitment, board_root, received_at)).unwrap()
}

impl ValidPublicValues {
    /// The bytes that a proof commits to.
    pub fn encode(&self) -> (r: Vec<u8>)
        ensures
            r@ == spend_values_encoding(self@),
    {
        write_spend_values(
            &self.vkey,
            &encode_fr(&self.board_root),
            &encode_fr_list(self.output_commitments.as_slice()),
            &encode_fr(&self.nullifier_root),
        )
    }
}

impl CoinReceiptPublicValues {
    /// The bytes that a proof commits to.
    pub fn encode(&self) -> (r: Vec<u8>)
        ensures
            r@ == receipt_values_encoding(self@),
    {
        write_receipt_values(
            &self.vkey,
            &encode_point(&self.owner_pk),
            &encode_fr(&self.coin_commitment),
            &encode_fr(&self.board_root),
            self.received_at,
        )
    }
}

/// What is wrong with a receipt, if anything.
pub open spec fn receipt_failure(
    coin_commitment: nat,
    entry: board::EntryView,
    parent_nonmembership: nullifier::WitnessView,
    nullifier_root_at_parent_slot: nat,
    spend_outputs: Seq<nat>,
) -> Option<Seq<char>> {
    if !nullifier::shows_absence(
        nullifier_root_at_parent_slot,
        entry.nullifier,
        parent_nonmembership,
    ) {
        Some(
            "parent transaction's nullifier was already present on the board — it was a double-spend"@,
        )
    } else if !entry.output_commitments.contains(coin_commitment) {
        Some("entry_k does not create coin_commitment"@)
    } else if !spend_outputs.contains(coin_commitment) {
        Some("parent spend proof does not commit to this coin commitment"@)
    } else {
        None
    }
}

/// Check a coin's receipt, a single proof built once when the coin is found:
/// - the entry that created the coin stands on the board at the slot (the returned
///   root is the one that its path leads to);
/// - the commitment is among the entry's published commitments;
/// - the creating transaction's spend proof commits to it;
/// - the creating transaction's nullifier had not been used as of its own slot, so no
///   receipt exists over a double-spending parent.
///
/// Whether the coin has since been spent is answered at spend time.
pub fn check_coin_receipt(
    vkey: [u32; 8],
    owner_pk: OwnerPk,
    coin_commitment: Fr,
    entry_k: BoardEntry,
    received_slot: usize,
    append_path: Vec<Fr>,
    parent_nonmembership: NonMembershipWitness,
    nullifier_root_at_parent_slot: Fr,
    spend_pv: ValidPublicValues,
) -> (r: Result<CoinReceiptPublicValues, &'static str>)
    ensures
        match r {
            Ok(values) => {
                &&& receipt_failure(
                    coin_commitment@,
                    entry_k@,
                    parent_nonmembership@,
                    nullifier_root_at_parent_slot@,
                    spend_pv@.output_commitments,
                ) is None
                &&& values@ == (ReceiptValuesView {
                    vkey: vkey@,
                    owner_pk: owner_pk@,
                    coin_commitment: coin_commitment@,
                    board_root: merkle::path_root(
                        board::entry_leaf(received_slot as nat, entry_k@),
                        received_slot as nat,
                        field::fr_values(append_path@),
                    ),
                    received_at: received_slot as nat,
                })
            },
            Err(message) => receipt_failure(
                coin_commitment@,
                entry_k@,
                parent_nonmembership@,
                nullifier_root_at_parent_slot@,
                spend_pv@.output_commitments,
            ) == Some(message@),
        },
{
    if !verify_nonmembership(
        nullifier_root_at_parent_slot,
        entry_k.nullifier,
        &parent_nonmembership,
    ) {
        return Err(
            "parent transaction's nullifier was already present on the board — it was a double-spend",
        );
    }
    let leaf_k = merkle_leaf(received_slot, &entry_k);
    let board_root = compute_root_from_path(leaf_k, received_slot, append_path.as_slice());
    if !fr_contains(entry_k.output_commitments.as_slice(), &coin_commitment) {
        return Err("entry_k does not create coin_commitment");
    }
    if !fr_contains(spend_pv.output_commitments.as_slice(), &coin_commitment) {
        return Err("parent spend proof does not commit to this coin commitment");
    }
    Ok(
        CoinReceiptPublicValues {
            vkey,
            owner_pk,
            coin_commitment,
            board_root,
            received_at: received_slot as u64,
        },
    )
}

/// The sum of the values of coins.
pub open spec fn total_value(coins: Seq<Coin>) -> nat
    decreases coins.len(),
{
    if coins.len() == 0 {
        0
    } else {
        total_value(coins.drop_last()) + coins.last().value as nat
    }
}

/// What is wrong with the inputs from `i` on, if anything.
pub open spec fn input_failure(
    coins: Seq<Coin>,
    commitments: Seq<nat>,
    owner: Option<(nat, nat)>,
    i: int,
) -> Option<Seq<char>>
    decreases coins.len() - i,
{
    if i < 0 || i >= coins.len() {
        None
    } else if coin::coin_commitment(coins[i]@) != commitments[i] {
        Some("input coin commitment does not match tx*"@)
    } else if coins[i].owner_pk@ != owner {
        Some("input coin's owner does not match the spender"@)
    } else {
        input_failure(coins, commitments, owner, i + 1)
    }
}

/// What is wrong with the provenance of a spend, if anything.
pub open spec fn provenance_failure(
    coin_proof_vkey: Seq<u32>,
    owner: Option<(nat, nat)>,
    coin_commitment: nat,
    is_genesis: bool,
    coin_proof: Option<ReceiptValuesView>,
) -> Option<Seq<char>> {
    if is_genesis {
        if owner != keys::owner_point(1) {
            Some("only the genesis key may mint without provenance"@)
        } else {
            None
        }
    } else {
        match coin_proof {
            None => Some("non-genesis spends require a coin-proof"@),
            Some(receipt) => if receipt.vkey != coin_proof_vkey {
                Some("coin-proof was produced under an unexpected vkey"@)
            } else if receipt.owner_pk != owner {
                Some("coin-proof owner must be P"@)
            } else if receipt.coin_commitment != coin_commitment {
                Some("coin-proof tracks a different coin"@)
            } else {
                None
            },
        }
    }
}

/// What a spend claims.
pub struct SpendClaim {
    pub coin_proof_vkey: Seq<u32>,
    pub sk: nat,
    pub owner: Option<(nat, nat)>,
    pub coin_commitment: nat,
    pub inputs: Seq<nat>,
    pub outputs: Seq<nat>,
    pub input_coins: Seq<Coin>,
    pub output_coins: Seq<Coin>,
    pub is_genesis: bool,
    pub coin_proof: Option<ReceiptValuesView>,
    pub nonmembership: nullifier::WitnessView,
    pub nullifier_root: nat,
}

/// What is wrong with a spend, if anything: the first condition that fails.
pub open spec fn spend_failure(claim: SpendClaim) -> Option<Seq<char>> {
    if keys::owner_point(claim.sk) != claim.owner {
        Some("pk_P must be the public key for sk_P"@)
    } else if !nullifier::shows_absence(
        claim.nullifier_root,
        envelope::nullifier_of(claim.coin_commitment, claim.sk),
        claim.nonmembership,
    ) {
        Some("P must not have spent this coin before (double spend)"@)
    } else if claim.input_coins.len() != claim.inputs.len() {
        Some("input_coins length does not match tx* input_commitments"@)
    } else if input_failure(claim.input_coins, claim.inputs, claim.owner, 0) is Some {
        input_failure(claim.input_coins, claim.inputs, claim.owner, 0)
    } else if !claim.inputs.contains(claim.coin_commitment) {
        Some("tx* does not spend the claimed coin"@)
    } else if claim.output_coins.len() != claim.outputs.len() {
        Some("output_coins length does not match tx* output_commitments"@)
    } else if coin::coin_commitments(claim.output_coins) != claim.outputs {
        Some("output coin commitment does not match tx*"@)
    } else if total_value(claim.input_coins) != total_value(claim.output_coins) {
        Some("transaction violates value conservation: sum(inputs) must equal sum(outputs)"@)
    } else {
        provenance_failure(
            claim.coin_proof_vkey,
            claim.owner,
            claim.coin_commitment,
            claim.is_genesis,
            claim.coin_proof,
        )
    }
}

/// The sum of the values of coins, wide enough for as many coins as memory holds.
pub fn sum_values(coins: &[Coin]) -> (r: u128)
    ensures
        r == total_value(coins@),
{
    let mut sum: u128 = 0;
    let mut i: usize = 0;
    while i < coins.len()
        invariant
            i <= coins@.len() == coins.len(),
            sum == total_value(coins@.take(i as int)),
            sum <= i * 0xffff_ffff_ffff_ffff,
        decreases coins@.len() - i,
    {
        proof {
            assert(coins@.take(i + 1).drop_last() =~= coins@.take(i as int));
            assert(i * 0xffff_ffff_ffff_ffff + 0xffff_ffff_ffff_ffff
                <= 0xffff_ffff_ffff_ffff_ffff_ffff_ffff_ffff) by (nonlinear_arith)
                requires
                    i < 0xffff_ffff_ffff_ffff,
            ;
        }
        sum = sum + coins[i].value as u128;
        i += 1;
    }
    assert(coins@.take(i as int) =~= coins@);
    sum
}

/// Whether two keys of eight words are equal.
fn same_vkey(a: &[u32; 8], b: &[u32; 8]) -> (r: bool)
    ensures
        r == (a@ == b@),
{
    let mut i: usize = 0;
    while i < 8
        invariant
            i <= 8,
            forall|j: int| 0 <= j < i ==> a@[j] == b@[j],
        decreases 8 - i,
    {
        if a[i] != b[i] {
            return false;
        }
        i += 1;
    }
    assert(a@ =~= b@);
    true
}

/// Check the inputs of a spend.
fn check_inputs(coins: &Vec<Coin>, commitments: &Vec<Fr>, owner: &OwnerPk) -> (r: Result<
    (),
    &'static str,
>)
    requires
        coins@.len() == commitments@.len(),
    ensures
        match r {
            Ok(()) => input_failure(coins@, field::fr_values(commitments@), owner@, 0) is None,
            Err(message) => input_failure(coins@, field::fr_values(commitments@), owner@, 0)
                == Some(message@),
        },
{
    let ghost values = field::fr_values(commitments@);
    let mut i: usize = 0;
    while i < coins.len()
        invariant
            i <= coins@.len() == commitments@.len(),
            values == field::fr_values(commitments@),
            input_failure(coins@, values, owner@, 0) == input_failure(
                coins@,
                values,
                owner@,
                i as int,
            ),
        decreases coins@.len() - i,
    {
        let commitment = coins[i].commitment();
        if commitment != commitments[i] {
            return Err("input coin commitment does not match tx*");
        }
        if coins[i].owner_pk != *owner {
            return Err("input coin's owner does not match the spender");
        }
        i += 1;
    }
    Ok(())
}

/// Whether coins open commitments, one by one.
fn opens_commitments(coins: &Vec<Coin>, commitments: &Vec<Fr>) -> (r: bool)
    requires
        coins@.len() == commitments@.len(),
    ensures
        r == (coin::coin_commitments(coins@) == field::fr_values(commitments@)),
{
    let mut i: usize = 0;
    while i < coins.len()
        invariant
            i <= coins@.len() == commitments@.len(),
            forall|j: int|
                0 <= j < i ==> coin::coin_commitment((#[trigger] coins@[j])@) == commitments@[j]@,
        decreases coins@.len() - i,
    {
        let commitment = coins[i].commitment();
        if commitment != commitments[i] {
            assert(coin::coin_commitments(coins@)[i as int] != field::fr_values(
                commitments@,
            )[i as int]);
            return false;
        }
        i += 1;
    }
    assert(coin::coin_commitments(coins@) =~= field::fr_values(commitments@));
    true
}

/// The view of an optional receipt.
pub open spec fn receipt_view(receipt: Option<CoinReceiptPublicValues>) -> Option<
    ReceiptValuesView,
> {
    match receipt {
        None => None,
        Some(values) => Some(values@),
    }
}

/// Check the provenance of a spend: the genesis key mints from its own authority, and
/// everybody else shows a receipt of the coin.
fn check_provenance(
    coin_proof_vkey: &[u32; 8],
    pk_p: &OwnerPk,
    coin_commitment: &Fr,
    is_genesis: bool,
    coin_proof: &Option<CoinReceiptPublicValues>,
) -> (r: Result<(), &'static str>)
    ensures
        match r {
            Ok(()) => provenance_failure(
                coin_proof_vkey@,
                pk_p@,
                coin_commitment@,
                is_genesis,
                receipt_view(*coin_proof),
            ) is None,
            Err(message) => provenance_failure(
                coin_proof_vkey@,
                pk_p@,
                coin_commitment@,
                is_genesis,
                receipt_view(*coin_proof),
            ) == Some(message@),
        },
{
    if is_genesis {
        if *pk_p != genesis_pk() {
            return Err("only the genesis key may mint without provenance");
        }
    } else {
        match coin_proof {
            None => {
                return Err("non-genesis spends require a coin-proof");
            },
            Some(cp) => {
                if !same_vkey(&cp.vkey, coin_proof_vkey) {
                    return Err("coin-proof was produced under an unexpected vkey");
                }
                if cp.owner_pk != *pk_p {
                    return Err("coin-proof owner must be P");
                }
                if cp.coin_commitment != *coin_commitment {
                    return Err("coin-proof tracks a different coin");
                }
            },
        }
    }
    Ok(())
}

/// Check every condition of the spend relation.
///
/// `entry_position` is the slot that the transaction will land at, and `append_path`
/// the path of that empty slot, which leads to the root of the board before the
/// transaction is posted. The non-membership witness shows that the coin has not been
/// spent. `input_coins` and `output_coins` are the openings of the transaction's
/// commitments: they show that values are conserved without revealing any.
pub fn check_spend(
    vkey: [u32; 8],
    coin_proof_vkey: [u32; 8],
    sk_p: OwnerScalar,
    pk_p: OwnerPk,
    coin_commitment: Fr,
    entry_position: usize,
    append_path: Vec<Fr>,
    tx_star: Transaction,
    input_coins: Vec<Coin>,
    output_coins: Vec<Coin>,
    is_genesis: bool,
    coin_proof: Option<CoinReceiptPublicValues>,
    own_nullifier_nonmembership: NonMembershipWitness,
    current_nullifier_root: Fr,
) -> (r: Result<ValidPublicValues, &'static str>)
    ensures
        ({
            let failure = spend_failure(
                SpendClaim {
                    coin_proof_vkey: coin_proof_vkey@,
                    sk: sk_p@,
                    owner: pk_p@,
                    coin_commitment: coin_commitment@,
                    inputs: tx_star@.input_commitments,
                    outputs: tx_star@.output_commitments,
                    input_coins: input_coins@,
                    output_coins: output_coins@,
                    is_genesis,
                    coin_proof: receipt_view(coin_proof),
                    nonmembership: own_nullifier_nonmembership@,
                    nullifier_root: current_nullifier_root@,
                },
            );
            match r {
                Ok(values) => {
                    &&& failure is None
                    &&& values@ == (SpendValuesView {
                        vkey: vkey@,
                        board_root: merkle::path_root(
                            0,
                            entry_position as nat,
                            field::fr_values(append_path@),
                        ),
                        output_commitments: tx_star@.output_commitments,
                        nullifier_root: current_nullifier_root@,
                    })
                },
                Err(message) => failure == Some(message@),
            }
        }),
{
    if derive_owner_pk(&sk_p) != pk_p {
        return Err("pk_P must be the public key for sk_P");
    }
    let board_root = compute_root_from_path(
        Fr::from(0u64),
        entry_position,
        append_path.as_slice(),
    );
    let spender_nullifier = own_nullifier(coin_commitment, &sk_p);
    if !verify_nonmembership(
        current_nullifier_root,
        spender_nullifier,
        &own_nullifier_nonmembership,
    ) {
        return Err("P must not have spent this coin before (double spend)");
    }
    if input_coins.len() != tx_star.input_commitments.len() {
        return Err("input_coins length does not match tx* input_commitments");
    }
    match check_inputs(&input_coins, &tx_star.input_commitments, &pk_p) {
        Ok(()) => {},
        Err(message) => {
            return Err(message);
        },
    }
    if !fr_contains(tx_star.input_commitments.as_slice(), &coin_commitment) {
        return Err("tx* does not spend the claimed coin");
    }
    if output_coins.len() != tx_star.output_commitments.len() {
        return Err("output_coins length does not match tx* output_commitments");
    }
    if !opens_commitments(&output_coins, &tx_star.output_commitments) {
        return Err("output coin commitment does not match tx*");
    }
    if sum_values(input_coins.as_slice()) != sum_values(output_coins.as_slice()) {
        return Err(
            "transaction violates value conservation: sum(inputs) must equal sum(outputs)",
        );
    }
    match check_provenance(&coin_proof_vkey, &pk_p, &coin_commitment, is_genesis, &coin_proof) {
        Ok(()) => {},
        Err(message) => {
            return Err(message);
        },
    }
    Ok(
        ValidPublicValues {
            vkey,
            board_root,
            output_commitments: copy_frs(tx_star.output_commitments.as_slice()),
            nullifier_root: current_nullifier_root,
        },
    )
}


/// A valid spend neither mints nor burns: the values of its inputs and of its outputs
/// have the same sum, and the coins it names are the ones that its commitments open to.
pub proof fn valid_spend_conserves_value(claim: SpendClaim)
    requires
        spend_failure(claim) is None,
    ensures
        total_value(claim.input_coins) == total_value(claim.output_coins),
        coin::coin_commitments(claim.input_coins) == claim.inputs,
        coin::coin_commitments(claim.output_coins) == claim.outputs,
        claim.inputs.contains(claim.coin_commitment),
        forall|i: int|
            0 <= i < claim.input_coins.len() ==> (#[trigger] claim.input_coins[i]).owner_pk@
                == claim.owner,
{
    lemma_inputs_match(claim.input_coins, claim.inputs, claim.owner, 0);
    assert(coin::coin_commitments(claim.input_coins) =~= claim.inputs);
}

proof fn lemma_inputs_match(
    coins: Seq<Coin>,
    commitments: Seq<nat>,
    owner: Option<(nat, nat)>,
    from: int,
)
    requires
        0 <= from,
        input_failure(coins, commitments, owner, from) is None,
    ensures
        forall|i: int|
            from <= i < coins.len() ==> coin::coin_commitment((#[trigger] coins[i])@)
                == commitments[i] && coins[i].owner_pk@ == owner,
    decreases coins.len() - from,
{
    if from < coins.len() {
        lemma_inputs_match(coins, commitments, owner, from + 1);
        assert forall|i: int| from <= i < coins.len() implies coin::coin_commitment(
            (#[trigger] coins[i])@,
        ) == commitments[i] && coins[i].owner_pk@ == owner by {
            if i > from {
                assert(from + 1 <= i);
            }
        }
    }
}

/// A valid spend that is not a genesis spend rests on a receipt of the same coin, for
/// the same owner, under the expected key; and only the genesis key may do without.
pub proof fn valid_spend_has_provenance(claim: SpendClaim)
    requires
        spend_failure(claim) is None,
    ensures
        claim.owner == keys::owner_point(claim.sk),
        claim.is_genesis ==> claim.owner == keys::owner_point(1),
        !claim.is_genesis ==> claim.coin_proof is Some && claim.coin_proof->0.vkey
            == claim.coin_proof_vkey && claim.coin_proof->0.owner_pk == claim.owner
            && claim.coin_proof->0.coin_commitment == claim.coin_commitment,
{
}

/// A coin cannot be spent twice: once its nullifier is in the accumulator, no witness
/// makes a spend of it valid, unless there is a collision of the hash or a preimage of
/// zero.
pub proof fn double_spend_is_rejected(claim: SpendClaim, leaves: Seq<nullifier::LeafView>)
    requires
        nullifier::is_linked_list(leaves),
        envelope::nullifier_of(claim.coin_commitment, claim.sk) < field::fr_modulus(),
        claim.nullifier_root == nullifier::accumulator_root(
            nullifier::inserted(
                leaves,
                envelope::nullifier_of(claim.coin_commitment, claim.sk),
            ),
        ),
    ensures
        spend_failure(claim) is Some || merkle::collision_exists()
            || nullifier::zero_preimage_exists(),
{
    let own = envelope::nullifier_of(claim.coin_commitment, claim.sk);
    let after = nullifier::inserted(leaves, own);
    nullifier::insertion_keeps_linked_list(leaves, own);
    nullifier::insertion_adds_exactly_the_value(leaves, own, own);
    if nullifier::shows_absence(claim.nullifier_root, own, claim.nonmembership) {
        nullifier::no_witness_verifies_for_a_member(after, own, claim.nonmembership);
    }
}

/// No receipt exists over a parent that was a double spend: when the entry's nullifier
/// was in the accumulator already, every receipt fails, unless there is a collision of
/// the hash or a preimage of zero.
pub proof fn receipt_over_double_spend_is_rejected(
    coin_commitment: nat,
    entry: board::EntryView,
    witness: nullifier::WitnessView,
    leaves: Seq<nullifier::LeafView>,
    spend_outputs: Seq<nat>,
)
    requires
        nullifier::is_linked_list(leaves),
        nullifier::has_value(leaves, entry.nullifier),
    ensures
        receipt_failure(
            coin_commitment,
            entry,
            witness,
            nullifier::accumulator_root(leaves),
            spend_outputs,
        ) is Some || merkle::collision_exists() || nullifier::zero_preimage_exists(),
{
    let root = nullifier::accumulator_root(leaves);
    if nullifier::shows_absence(root, entry.nullifier, witness) {
        nullifier::no_witness_verifies_for_a_member(leaves, entry.nullifier, witness);
    }
}

/// An honest receipt passes: the entry creates the coin and so does its spend proof,
/// and its nullifier, strictly between the sentinels, was not in the accumulator.
pub proof fn honest_receipt_is_accepted(
    coin_commitment: nat,
    entry: board::EntryView,
    leaves: Seq<nullifier::LeafView>,
    spend_outputs: Seq<nat>,
)
    requires
        nullifier::is_linked_list(leaves),
        leaves.len() <= pow2(32),
        0 < entry.nullifier < nullifier::max_value(),
        !nullifier::has_value(leaves, entry.nullifier),
        entry.output_commitments.contains(coin_commitment),
        spend_outputs.contains(coin_commitment),
    ensures
        receipt_failure(
            coin_commitment,
            entry,
            nullifier::witness_for(leaves, entry.nullifier),
            nullifier::accumulator_root(leaves),
            spend_outputs,
        ) is None,
{
    nullifier::absent_value_has_a_valid_witness(leaves, entry.nullifier);
}

/// The root that a spend commits to is that of the board before it, when its path is
/// the one of the next slot; and the root that a receipt of the posted entry commits to
/// is that of the board with it.
pub proof fn spend_and_receipt_anchor_the_board(
    entries: Seq<board::EntryView>,
    entry: board::EntryView,
)
    requires
        entries.len() < pow2(32),
    ensures
        merkle::path_root(
            0,
            entries.len(),
            merkle::tree_path(board::board_leaves(entries), entries.len()),
        ) == board::board_root(entries),
        merkle::path_root(
            board::entry_leaf(entries.len(), entry),
            entries.len(),
            merkle::tree_path(board::board_leaves(entries.push(entry)), entries.len()),
        ) == board::board_root(entries.push(entry)),
{
    board::append_path_shows_old_and_new_root(entries, entry);
    board::next_path_is_append_proof(entries, entry);
}

/// The sum counts every coin, however many there are: no coins have the sum zero, one more coin
/// adds its value, and the sum of two lists is that of both together.
pub proof fn sum_counts_every_coin(coins: Seq<Coin>, more: Seq<Coin>, c: Coin)
    ensures
        total_value(Seq::<Coin>::empty()) == 0,
        total_value(coins.push(c)) == total_value(coins) + c.value,
        total_value(coins + more) == total_value(coins) + total_value(more),
    decreases more.len(),
{
    assert(coins.push(c).drop_last() =~= coins);
    if more.len() == 0 {
        assert(coins + more =~= coins);
    } else {
        sum_counts_every_coin(coins, more.drop_last(), c);
        assert((coins + more).drop_last() =~= coins + more.drop_last());
        assert((coins + more).last() == more.last());
    }
}

/// What [`sum_values`] returns is the values of all the coins, added up.
pub proof fn sum_is_the_fold_of_all_values(coins: &[Coin], r: u128)
    requires
        call_ensures(sum_values, (coins,), r),
    ensures
        r == coins@.fold_left(0nat, |sum: nat, c: Coin| sum + c.value as nat),
{
    lemma_total_is_fold(coins@);
}

proof fn lemma_total_is_fold(coins: Seq<Coin>)
    ensures
        total_value(coins) == coins.fold_left(0nat, |sum: nat, c: Coin| sum + c.value as nat),
    decreases coins.len(),
{
    if coins.len() > 0 {
        lemma_total_is_fold(coins.drop_last());
    }
}

proof fn lemma_lists_element(list: Seq<Fr>, x: Fr)
    ensures
        field::fr_values(list).contains(x@) == exists|i: int|
            0 <= i < list.len() && (#[trigger] list[i])@ == x@,
{
    let values = field::fr_values(list);
    if exists|i: int| 0 <= i < list.len() && (#[trigger] list[i])@ == x@ {
        let i = choose|i: int| 0 <= i < list.len() && (#[trigger] list[i])@ == x@;
        assert(values[i] == x@);
    }
    if values.contains(x@) {
        let i = values.index_of(x@);
        assert(values[i] == list[i]@);
    }
}

/// A receipt is accepted if and only if the witness shows that the entry's nullifier was not
/// used before, the entry creates the coin, and the spend that it rests on creates the coin.
/// What is returned names the given owner, coin and slot, and the root that the entry reaches
/// from the slot. Of what is wrong, the first in this order is told.
pub proof fn receipt_needs_absence_entry_and_spend(
    vkey: [u32; 8],
    owner_pk: OwnerPk,
    coin_commitment: Fr,
    entry_k: BoardEntry,
    received_slot: usize,
    append_path: Vec<Fr>,
    parent_nonmembership: NonMembershipWitness,
    nullifier_root_at_parent_slot: Fr,
    spend_pv: ValidPublicValues,
    r: Result<CoinReceiptPublicValues, &'static str>,
)
    requires
        call_ensures(
            check_coin_receipt,
            (
                vkey,
                owner_pk,
                coin_commitment,
                entry_k,
                received_slot,
                append_path,
                parent_nonmembership,
                nullifier_root_at_parent_slot,
                spend_pv,
            ),
            r,
        ),
    ensures
        ({
            let absent = {
                &&& parent_nonmembership.low_leaf.value@ < entry_k.nullifier@
                &&& entry_k.nullifier@ < parent_nonmembership.low_leaf.next_value@
                &&& merkle::path_root(
                    poseidon::poseidon(
                        seq![
                            parent_nonmembership.low_leaf.value@,
                            parent_nonmembership.low_leaf.next_value@,
                            parent_nonmembership.low_leaf.next_index as nat,
                        ],
                    ),
                    parent_nonmembership.low_leaf_index as nat,
                    field::fr_values(parent_nonmembership.sibling_path@),
                ) == nullifier_root_at_parent_slot@
            };
            let created = (exists|i: int|
                0 <= i < entry_k.output_commitments@.len() && (#[trigger] entry_k.output_commitments@[i])@ == coin_commitment@);
            let proven = (exists|i: int|
                0 <= i < spend_pv.output_commitments@.len() && (#[trigger] spend_pv.output_commitments@[i])@ == coin_commitment@);
            &&& r is Ok <==> absent && created && proven
            &&& !absent ==> r->Err_0@
                == "parent transaction's nullifier was already present on the board — it was a double-spend"@
            &&& absent && !created ==> r->Err_0@ == "entry_k does not create coin_commitment"@
            &&& absent && created && !proven ==> r->Err_0@
                == "parent spend proof does not commit to this coin commitment"@
        }),
        r matches Ok(values) ==> {
            &&& values.vkey@ == vkey@
            &&& values.owner_pk@ == owner_pk@
            &&& values.coin_commitment@ == coin_commitment@
            &&& values.received_at == received_slot
            &&& values.board_root@ == merkle::path_root(
                board::entry_leaf(received_slot as nat, entry_k@),
                received_slot as nat,
                field::fr_values(append_path@),
            )
        },
{
    lemma_lists_element(entry_k.output_commitments@, coin_commitment);
    lemma_lists_element(spend_pv.output_commitments@, coin_commitment);
    if r is Ok {
        assert(r->Ok_0@.received_at == r->Ok_0.received_at as nat);
    }
}

/// The root of an accepted receipt is one under which [`board::merkle_verify`] finds the entry
/// at the slot.
pub proof fn receipt_root_holds_the_entry(
    vkey: [u32; 8],
    owner_pk: OwnerPk,
    coin_commitment: Fr,
    entry_k: BoardEntry,
    received_slot: usize,
    append_path: Vec<Fr>,
    parent_nonmembership: NonMembershipWitness,
    nullifier_root_at_parent_slot: Fr,
    spend_pv: ValidPublicValues,
    r: Result<CoinReceiptPublicValues, &'static str>,
    path: &[Fr],
    found: bool,
)
    requires
        call_ensures(
            check_coin_receipt,
            (
                vkey,
                owner_pk,
                coin_commitment,
                entry_k,
                received_slot,
                append_path,
                parent_nonmembership,
                nullifier_root_at_parent_slot,
                spend_pv,
            ),
            r,
        ),
        r is Ok,
        path@ == append_path@,
        call_ensures(
            board::merkle_verify,
            (r->Ok_0.board_root, received_slot, &entry_k, path),
            found,
        ),
    ensures
        found,
{
    assert(r->Ok_0@.board_root == r->Ok_0.board_root@);
}

/// A spend is accepted if and only if the spender's secret belongs to the key, the witness
/// shows the coin's nullifier absent, every input coin opens the commitment at its place and
/// is the spender's, the coin is among the inputs, every output coin opens the commitment at
/// its place, the values of all inputs and those of all outputs add up to the same, and the
/// provenance is good. What is returned names the transaction's outputs, the accumulator's
/// root, and the root that the empty slot reaches.
pub proof fn spend_needs_every_condition(
    vkey: [u32; 8],
    coin_proof_vkey: [u32; 8],
    sk_p: OwnerScalar,
    pk_p: OwnerPk,
    coin_commitment: Fr,
    entry_position: usize,
    append_path: Vec<Fr>,
    tx_star: Transaction,
    input_coins: Vec<Coin>,
    output_coins: Vec<Coin>,
    is_genesis: bool,
    coin_proof: Option<CoinReceiptPublicValues>,
    own_nullifier_nonmembership: NonMembershipWitness,
    current_nullifier_root: Fr,
    r: Result<ValidPublicValues, &'static str>,
)
    requires
        call_ensures(
            check_spend,
            (
                vkey,
                coin_proof_vkey,
                sk_p,
                pk_p,
                coin_commitment,
                entry_position,
                append_path,
                tx_star,
                input_coins,
                output_coins,
                is_genesis,
                coin_proof,
                own_nullifier_nonmembership,
                current_nullifier_root,
            ),
            r,
        ),
    ensures
        r is Ok <==> {
            &&& keys::owner_point(sk_p@) == pk_p@
            &&& own_nullifier_nonmembership.low_leaf.value@ < envelope::nullifier_of(
                coin_commitment@,
                sk_p@,
            )
            &&& envelope::nullifier_of(coin_commitment@, sk_p@)
                < own_nullifier_nonmembership.low_leaf.next_value@
            &&& merkle::path_root(
                poseidon::poseidon(
                    seq![
                        own_nullifier_nonmembership.low_leaf.value@,
                        own_nullifier_nonmembership.low_leaf.next_value@,
                        own_nullifier_nonmembership.low_leaf.next_index as nat,
                    ],
                ),
                own_nullifier_nonmembership.low_leaf_index as nat,
                field::fr_values(own_nullifier_nonmembership.sibling_path@),
            ) == current_nullifier_root@
            &&& input_coins@.len() == tx_star.input_commitments@.len()
            &&& forall|i: int|
                0 <= i < input_coins@.len() ==> coin::coin_commitment((#[trigger] input_coins@[i])@)
                    == tx_star.input_commitments@[i]@ && input_coins@[i].owner_pk@ == pk_p@
            &&& (exists|i: int|
                0 <= i < tx_star.input_commitments@.len() && (#[trigger] tx_star.input_commitments@[i])@ == coin_commitment@)
            &&& output_coins@.len() == tx_star.output_commitments@.len()
            &&& forall|j: int|
                0 <= j < output_coins@.len() ==> coin::coin_commitment(
                    (#[trigger] output_coins@[j])@,
                ) == tx_star.output_commitments@[j]@
            &&& input_coins@.fold_left(0nat, |sum: nat, c: Coin| sum + c.value as nat)
                == output_coins@.fold_left(0nat, |sum: nat, c: Coin| sum + c.value as nat)
            // A mint is by the genesis key, and any other spend has a receipt.
            &&& is_genesis ==> pk_p@ == keys::owner_point(1)
            &&& !is_genesis ==> coin_proof is Some && coin_proof->0.vkey@ == coin_proof_vkey@
                && coin_proof->0.owner_pk@ == pk_p@ && coin_proof->0.coin_commitment@
                == coin_commitment@
        },
        r matches Ok(values) ==> {
            &&& values.vkey@ == vkey@
            &&& field::fr_values(values.output_commitments@) == field::fr_values(
                tx_star.output_commitments@,
            )
            &&& values.nullifier_root@ == current_nullifier_root@
            &&& values.board_root@ == merkle::path_root(
                0,
                entry_position as nat,
                field::fr_values(append_path@),
            )
        },
{
    let inputs = tx_star@.input_commitments;
    let outputs = tx_star@.output_commitments;
    lemma_lists_element(tx_star.input_commitments@, coin_commitment);
    lemma_total_is_fold(input_coins@);
    lemma_total_is_fold(output_coins@);
    lemma_input_failure_is_some_input(input_coins@, inputs, pk_p@, 0);
    let opened = coin::coin_commitments(output_coins@);
    let matching = forall|j: int|
        0 <= j < output_coins@.len() ==> coin::coin_commitment((#[trigger] output_coins@[j])@)
            == tx_star.output_commitments@[j]@;
    assert(output_coins@.len() == outputs.len() && matching ==> opened =~= outputs);
    if output_coins@.len() == outputs.len() && opened == outputs {
        assert forall|j: int| 0 <= j < output_coins@.len() implies coin::coin_commitment(
            (#[trigger] output_coins@[j])@,
        ) == tx_star.output_commitments@[j]@ by {
            assert(opened[j] == outputs[j]);
        }
    }
    assert forall|i: int| 0 <= i < inputs.len() implies #[trigger] inputs[i]
        == tx_star.input_commitments@[i]@ by {}
    if r is Ok {
        assert(r->Ok_0@.board_root == r->Ok_0.board_root@);
        assert(r->Ok_0@.output_commitments == field::fr_values(r->Ok_0.output_commitments@));
    }
}

/// Of what is wrong with a spend, the first is told: the key, a double spend, the inputs, the
/// coin, the outputs, the sum, and at last the provenance.
pub proof fn spend_tells_the_first_failure(
    vkey: [u32; 8],
    coin_proof_vkey: [u32; 8],
    sk_p: OwnerScalar,
    pk_p: OwnerPk,
    coin_commitment: Fr,
    entry_position: usize,
    append_path: Vec<Fr>,
    tx_star: Transaction,
    input_coins: Vec<Coin>,
    output_coins: Vec<Coin>,
    is_genesis: bool,
    coin_proof: Option<CoinReceiptPublicValues>,
    own_nullifier_nonmembership: NonMembershipWitness,
    current_nullifier_root: Fr,
    r: Result<ValidPublicValues, &'static str>,
)
    requires
        call_ensures(
            check_spend,
            (
                vkey,
                coin_proof_vkey,
                sk_p,
                pk_p,
                coin_commitment,
                entry_position,
                append_path,
                tx_star,
                input_coins,
                output_coins,
                is_genesis,
                coin_proof,
                own_nullifier_nonmembership,
                current_nullifier_root,
            ),
            r,
        ),
    ensures
        ({
            let inputs = tx_star.input_commitments@;
            let outputs = tx_star.output_commitments@;
            let keyed = keys::owner_point(sk_p@) == pk_p@;
            let unspent = keyed && nullifier::shows_absence(
                current_nullifier_root@,
                envelope::nullifier_of(coin_commitment@, sk_p@),
                own_nullifier_nonmembership@,
            );
            let counted = unspent && input_coins@.len() == inputs.len();
            let owned = counted && forall|i: int|
                0 <= i < input_coins@.len() ==> coin::coin_commitment((#[trigger] input_coins@[i])@)
                    == inputs[i]@ && input_coins@[i].owner_pk@ == pk_p@;
            let spent = owned && exists|i: int|
                0 <= i < inputs.len() && (#[trigger] inputs[i])@ == coin_commitment@;
            let told = spent && output_coins@.len() == outputs.len();
            let opened = told && forall|j: int|
                0 <= j < output_coins@.len() ==> coin::coin_commitment(
                    (#[trigger] output_coins@[j])@,
                ) == outputs[j]@;
            let conserved = opened && total_value(input_coins@) == total_value(output_coins@);
            let receipt = coin_proof->0;
            let known = conserved && !is_genesis && coin_proof is Some;
            let trusted = known && receipt.vkey@ == coin_proof_vkey@;
            let own = trusted && receipt.owner_pk@ == pk_p@;
            &&& !keyed ==> r->Err_0@ == "pk_P must be the public key for sk_P"@
            &&& keyed && !unspent ==> r->Err_0@
                == "P must not have spent this coin before (double spend)"@
            &&& unspent && !counted ==> r->Err_0@
                == "input_coins length does not match tx* input_commitments"@
            &&& counted ==> forall|i: int|
                0 <= i < input_coins@.len() && (forall|k: int|
                    0 <= k < i ==> coin::coin_commitment((#[trigger] input_coins@[k])@)
                        == inputs[k]@ && input_coins@[k].owner_pk@ == pk_p@) ==> {
                    &&& coin::coin_commitment((#[trigger] input_coins@[i])@) != inputs[i]@
                        ==> r->Err_0@ == "input coin commitment does not match tx*"@
                    &&& coin::coin_commitment(input_coins@[i]@) == inputs[i]@
                        && input_coins@[i].owner_pk@ != pk_p@ ==> r->Err_0@
                        == "input coin's owner does not match the spender"@
                }
            &&& owned && !spent ==> r->Err_0@ == "tx* does not spend the claimed coin"@
            &&& spent && !told ==> r->Err_0@
                == "output_coins length does not match tx* output_commitments"@
            &&& told && !opened ==> r->Err_0@ == "output coin commitment does not match tx*"@
            &&& opened && !conserved ==> r->Err_0@
                == "transaction violates value conservation: sum(inputs) must equal sum(outputs)"@
            &&& conserved && is_genesis && pk_p@ != keys::owner_point(1) ==> r->Err_0@
                == "only the genesis key may mint without provenance"@
            &&& conserved && !is_genesis && coin_proof is None ==> r->Err_0@
                == "non-genesis spends require a coin-proof"@
            &&& known && !trusted ==> r->Err_0@
                == "coin-proof was produced under an unexpected vkey"@
            &&& trusted && !own ==> r->Err_0@ == "coin-proof owner must be P"@
            &&& own && receipt.coin_commitment@ != coin_commitment@ ==> r->Err_0@
                == "coin-proof tracks a different coin"@
        }),
{
    let inputs = tx_star@.input_commitments;
    let outputs = tx_star@.output_commitments;
    lemma_lists_element(tx_star.input_commitments@, coin_commitment);
    lemma_input_failure_is_some_input(input_coins@, inputs, pk_p@, 0);
    assert forall|i: int|
        #![trigger input_coins@[i]]
        0 <= i < input_coins@.len() && (forall|k: int|
            0 <= k < i ==> coin::coin_commitment((#[trigger] input_coins@[k])@)
                == tx_star.input_commitments@[k]@ && input_coins@[k].owner_pk@
                == pk_p@) && input_coins@.len() == inputs.len() implies input_failure(
        input_coins@,
        inputs,
        pk_p@,
        0,
    ) == input_failure(input_coins@, inputs, pk_p@, i) by {
        lemma_input_failure_skips(input_coins@, inputs, pk_p@, 0, i);
    }
    let opened = coin::coin_commitments(output_coins@);
    if output_coins@.len() == outputs.len() {
        if forall|j: int|
            0 <= j < output_coins@.len() ==> coin::coin_commitment((#[trigger] output_coins@[j])@)
                == tx_star.output_commitments@[j]@ {
            assert(opened =~= outputs);
        }
        if opened == outputs {
            assert forall|j: int| 0 <= j < output_coins@.len() implies coin::coin_commitment(
                (#[trigger] output_coins@[j])@,
            ) == tx_star.output_commitments@[j]@ by {
                assert(opened[j] == outputs[j]);
            }
        }
    }
    assert forall|i: int| 0 <= i < inputs.len() implies #[trigger] inputs[i]
        == tx_star.input_commitments@[i]@ by {}
}

/// Inputs with which nothing is wrong are passed over.
proof fn lemma_input_failure_skips(
    coins: Seq<Coin>,
    commitments: Seq<nat>,
    owner: Option<(nat, nat)>,
    from: int,
    i: int,
)
    requires
        0 <= from <= i <= coins.len(),
        forall|k: int|
            from <= k < i ==> coin::coin_commitment((#[trigger] coins[k])@) == commitments[k]
                && coins[k].owner_pk@ == owner,
    ensures
        input_failure(coins, commitments, owner, from) == input_failure(
            coins,
            commitments,
            owner,
            i,
        ),
    decreases i - from,
{
    if from < i {
        assert(coin::coin_commitment(coins[from]@) == commitments[from]);
        lemma_input_failure_skips(coins, commitments, owner, from + 1, i);
    }
}

/// Nothing is wrong with the inputs if and only if nothing is wrong with any one of them.
proof fn lemma_input_failure_is_some_input(
    coins: Seq<Coin>,
    commitments: Seq<nat>,
    owner: Option<(nat, nat)>,
    from: int,
)
    requires
        0 <= from,
    ensures
        input_failure(coins, commitments, owner, from) is None <==> forall|i: int|
            from <= i < coins.len() ==> coin::coin_commitment((#[trigger] coins[i])@)
                == commitments[i] && coins[i].owner_pk@ == owner,
    decreases coins.len() - from,
{
    if from < coins.len() {
        lemma_input_failure_is_some_input(coins, commitments, owner, from + 1);
        if input_failure(coins, commitments, owner, from) is None {
            lemma_inputs_match(coins, commitments, owner, from);
        }
    }
}

/// Words are encoded in four bytes each.
proof fn lemma_words_encoding_len(words: Seq<u32>)
    ensures
        words_encoding(words).len() == 4 * words.len(),
    decreases words.len(),
{
    if words.len() > 0 {
        lemma_words_encoding_len(words.drop_first());
        codec::lemma_le_bytes_len(words[0] as nat, 4);
    }
}

/// Every word stands in four bytes of its own.
pub proof fn words_stand_in_four_bytes_each(words: Seq<u32>, i: int)
    requires
        0 <= i < words.len(),
    ensures
        words_encoding(words).len() == 4 * words.len(),
        field::bytes_value(words_encoding(words).subrange(4 * i, 4 * i + 4)) == words[i],
    decreases i,
{
    let rest = words.drop_first();
    lemma_words_encoding_len(words);
    lemma_words_encoding_len(rest);
    vstd::arithmetic::power2::lemma2_to64();
    codec::lemma_le_bytes_value(words[0] as nat, 4);
    let all = words_encoding(words);
    if i == 0 {
        assert(all.subrange(0, 4) =~= codec::le_bytes(words[0] as nat, 4));
    } else {
        words_stand_in_four_bytes_each(rest, i - 1);
        assert(all.subrange(4 * i, 4 * i + 4) =~= words_encoding(rest).subrange(
            4 * (i - 1),
            4 * (i - 1) + 4,
        ));
    }
}

proof fn lemma_words_determined(a: Seq<u32>, b: Seq<u32>)
    requires
        a.len() == b.len(),
        words_encoding(a) == words_encoding(b),
    ensures
        a == b,
{
    assert forall|i: int| 0 <= i < a.len() implies a[i] == b[i] by {
        words_stand_in_four_bytes_each(a, i);
        words_stand_in_four_bytes_each(b, i);
    }
    assert(a =~= b);
}

/// The bytes that a spend proof commits to determine every public value: the key, the board
/// root, the output commitments and the accumulator's root.
pub proof fn spend_encoding_determines_values(
    a: &ValidPublicValues,
    b: &ValidPublicValues,
    bytes_a: Vec<u8>,
    bytes_b: Vec<u8>,
)
    requires
        call_ensures(ValidPublicValues::encode, (a,), bytes_a),
        call_ensures(ValidPublicValues::encode, (b,), bytes_b),
        bytes_a@ == bytes_b@,
        a@.board_root < field::fr_modulus(),
        b@.board_root < field::fr_modulus(),
        a@.nullifier_root < field::fr_modulus(),
        b@.nullifier_root < field::fr_modulus(),
        codec::are_elements(a@.output_commitments),
        codec::are_elements(b@.output_commitments),
        codec::fr_list_encoding(a@.output_commitments).len() <= u64::MAX,
        codec::fr_list_encoding(b@.output_commitments).len() <= u64::MAX,
    ensures
        a.vkey@ == b.vkey@,
        a.board_root@ == b.board_root@,
        field::fr_values(a.output_commitments@) == field::fr_values(b.output_commitments@),
        a.nullifier_root@ == b.nullifier_root@,
        a@ == b@,
{
    let x = a@;
    let y = b@;
    lemma_words_encoding_len(x.vkey);
    lemma_words_encoding_len(y.vkey);
    codec::lemma_element_bytes(x.board_root);
    codec::lemma_element_bytes(y.board_root);
    codec::lemma_element_bytes(x.nullifier_root);
    codec::lemma_element_bytes(y.nullifier_root);
    let x1 = codec::fr_encoding(x.board_root);
    let y1 = codec::fr_encoding(y.board_root);
    let x2 = codec::fr_list_encoding(x.output_commitments);
    let y2 = codec::fr_list_encoding(y.output_commitments);
    let x3 = codec::blob_encoding(codec::fr_encoding(x.nullifier_root));
    let y3 = codec::blob_encoding(codec::fr_encoding(y.nullifier_root));
    let whole = bytes_a@;
    assert(whole =~= words_encoding(x.vkey) + (codec::blob_encoding(x1) + (codec::blob_encoding(x2)
        + x3)));
    assert(whole =~= words_encoding(y.vkey) + (codec::blob_encoding(y1) + (codec::blob_encoding(y2)
        + y3)));
    assert(whole.take(32) =~= words_encoding(x.vkey));
    assert(whole.take(32) =~= words_encoding(y.vkey));
    lemma_words_determined(x.vkey, y.vkey);
    let s1 = whole.skip(32);
    assert(s1 =~= codec::blob_encoding(x1) + (codec::blob_encoding(x2) + x3));
    assert(s1 =~= codec::blob_encoding(y1) + (codec::blob_encoding(y2) + y3));
    assert(s1.take(s1.len() as int) =~= s1);
    codec::lemma_blob_unique(
        s1,
        x1,
        codec::blob_encoding(x2) + x3,
        y1,
        codec::blob_encoding(y2) + y3,
    );
    let s2 = s1.skip(codec::blob_encoding(x1).len() as int);
    assert(s2 =~= codec::blob_encoding(x2) + x3);
    assert(s2 =~= codec::blob_encoding(y2) + y3);
    assert(s2.take(s2.len() as int) =~= s2);
    codec::lemma_blob_unique(s2, x2, x3, y2, y3);
    let s3 = s2.skip(codec::blob_encoding(x2).len() as int);
    assert(s3 =~= x3 && s3 =~= y3);
    assert(s3.skip(8) =~= codec::fr_encoding(x.nullifier_root)) by {
        codec::lemma_le_bytes_len(95, 8);
    }
    assert(s3.skip(8) =~= codec::fr_encoding(y.nullifier_root)) by {
        codec::lemma_le_bytes_len(95, 8);
    }
    assert(x2.take(x2.len() as int) =~= x2);
    codec::lemma_fr_list_unique(x2, x.output_commitments, y.output_commitments);
    assert(x =~= y);
}

/// The bytes that a receipt's proof commits to determine the key, the coin's commitment, the
/// board root, the slot, and the encoding of the owner's key.
pub proof fn receipt_encoding_determines_values(
    a: &CoinReceiptPublicValues,
    b: &CoinReceiptPublicValues,
    bytes_a: Vec<u8>,
    bytes_b: Vec<u8>,
)
    requires
        call_ensures(CoinReceiptPublicValues::encode, (a,), bytes_a),
        call_ensures(CoinReceiptPublicValues::encode, (b,), bytes_b),
        bytes_a@ == bytes_b@,
        a@.coin_commitment < field::fr_modulus(),
        b@.coin_commitment < field::fr_modulus(),
        a@.board_root < field::fr_modulus(),
        b@.board_root < field::fr_modulus(),
    ensures
        a.vkey@ == b.vkey@,
        codec::point_encoding(a.owner_pk@) == codec::point_encoding(b.owner_pk@),
        a.coin_commitment@ == b.coin_commitment@,
        a.board_root@ == b.board_root@,
        a.received_at == b.received_at,
{
    let x = a@;
    let y = b@;
    lemma_words_encoding_len(x.vkey);
    lemma_words_encoding_len(y.vkey);
    codec::lemma_element_bytes(x.coin_commitment);
    codec::lemma_element_bytes(y.coin_commitment);
    codec::lemma_element_bytes(x.board_root);
    codec::lemma_element_bytes(y.board_root);
    codec::lemma_point_encoding_len(x.owner_pk);
    codec::lemma_point_encoding_len(y.owner_pk);
    codec::lemma_u64_bytes(x.received_at);
    codec::lemma_u64_bytes(y.received_at);
    codec::lemma_le_bytes_len(95, 8);
    let whole = bytes_a@;
    // 32 bytes of the key, then three times eight bytes of length and 95 of content, then eight.
    assert(whole.subrange(0, 32) =~= words_encoding(x.vkey));
    assert(whole.subrange(0, 32) =~= words_encoding(y.vkey));
    lemma_words_determined(x.vkey, y.vkey);
    assert(whole.subrange(40, 135) =~= codec::point_encoding(x.owner_pk));
    assert(whole.subrange(40, 135) =~= codec::point_encoding(y.owner_pk));
    assert(whole.subrange(143, 238) =~= codec::fr_encoding(x.coin_commitment));
    assert(whole.subrange(143, 238) =~= codec::fr_encoding(y.coin_commitment));
    assert(whole.subrange(246, 341) =~= codec::fr_encoding(x.board_root));
    assert(whole.subrange(246, 341) =~= codec::fr_encoding(y.board_root));
    assert(whole.subrange(341, 349) =~= codec::le_bytes(x.received_at, 8));
    assert(whole.subrange(341, 349) =~= codec::le_bytes(y.received_at, 8));
    assert(x.received_at == a.received_at as nat && y.received_at == b.received_at as nat);
}

/// A coin cannot be spent twice: where an accumulator holds the coin's nullifier, [`check_spend`]
/// refuses the coin under that accumulator's root, whatever the witness, unless there is a
/// collision of the hash or a preimage of zero.
pub proof fn spent_coin_is_refused(
    vkey: [u32; 8],
    coin_proof_vkey: [u32; 8],
    sk_p: OwnerScalar,
    pk_p: OwnerPk,
    coin_commitment: Fr,
    entry_position: usize,
    append_path: Vec<Fr>,
    tx_star: Transaction,
    input_coins: Vec<Coin>,
    output_coins: Vec<Coin>,
    is_genesis: bool,
    coin_proof: Option<CoinReceiptPublicValues>,
    own_nullifier_nonmembership: NonMembershipWitness,
    current_nullifier_root: Fr,
    r: Result<ValidPublicValues, &'static str>,
    spent: &nullifier::NullifierTree,
    nullifier: Fr,
)
    requires
        call_ensures(
            check_spend,
            (
                vkey,
                coin_proof_vkey,
                sk_p,
                pk_p,
                coin_commitment,
                entry_position,
                append_path,
                tx_star,
                input_coins,
                output_coins,
                is_genesis,
                coin_proof,
                own_nullifier_nonmembership,
                current_nullifier_root,
            ),
            r,
        ),
        spent.well_formed(),
        call_ensures(own_nullifier, (coin_commitment, &sk_p), nullifier),
        call_ensures(nullifier::NullifierTree::contains, (spent, nullifier), true),
        call_ensures(nullifier::NullifierTree::root, (spent,), current_nullifier_root),
    ensures
        r is Err || merkle::collision_exists() || nullifier::zero_preimage_exists(),
{
    let own = envelope::nullifier_of(coin_commitment@, sk_p@);
    if nullifier::shows_absence(current_nullifier_root@, own, own_nullifier_nonmembership@) {
        nullifier::no_witness_verifies_for_a_member(spent@, own, own_nullifier_nonmembership@);
    }
}

/// No receipt is accepted over a spend that was a double spend: where an accumulator held the
/// entry's nullifier, [`check_coin_receipt`] refuses the receipt under that accumulator's root,
/// whatever the witness, unless there is a collision of the hash or a preimage of zero.
pub proof fn receipt_of_a_double_spend_is_refused(
    vkey: [u32; 8],
    owner_pk: OwnerPk,
    coin_commitment: Fr,
    entry_k: BoardEntry,
    received_slot: usize,
    append_path: Vec<Fr>,
    parent_nonmembership: NonMembershipWitness,
    nullifier_root_at_parent_slot: Fr,
    spend_pv: ValidPublicValues,
    r: Result<CoinReceiptPublicValues, &'static str>,
    spent: &nullifier::NullifierTree,
)
    requires
        call_ensures(
            check_coin_receipt,
            (
                vkey,
                owner_pk,
                coin_commitment,
                entry_k,
                received_slot,
                append_path,
                parent_nonmembership,
                nullifier_root_at_parent_slot,
                spend_pv,
            ),
            r,
        ),
        spent.well_formed(),
        call_ensures(nullifier::NullifierTree::contains, (spent, entry_k.nullifier), true),
        call_ensures(nullifier::NullifierTree::root, (spent,), nullifier_root_at_parent_slot),
    ensures
        r is Err || merkle::collision_exists() || nullifier::zero_preimage_exists(),
{
    let root = nullifier_root_at_parent_slot@;
    if nullifier::shows_absence(root, entry_k@.nullifier, parent_nonmembership@) {
        nullifier::no_witness_verifies_for_a_member(
            spent@,
            entry_k@.nullifier,
            parent_nonmembership@,
        );
    }
}

} // verus!
