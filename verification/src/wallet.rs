//! What a party of the chain holds, and the transactions that it makes.

use vstd::prelude::*;
use crate::board;
use crate::circuit_spend::MAX_OUTPUTS;
use crate::codec;
use crate::coin;
use crate::coin::{Coin, Transaction};
use crate::envelope;
use crate::envelope::{build_note_enc, derive_enc_pk, push_bytes, push_u64, sha256, EK_SALT};
use crate::field;
use crate::field::{Fr, OwnerScalar};
use crate::keys;
use crate::keys::{derive_owner_pk, genesis_pk, genesis_sk, OwnerPk};
use crate::poseidon;
use crate::poseidon::poseidon_hash;

verus! {

/// A party: an X25519 pair for encryption, and a pair for coin ownership. The two lie on
/// different curves and are independent.
#[derive(Clone, Copy, Debug)]
pub struct Party {
    pub name: &'static str,
    pub enc_sk: [u8; 32],
    pub enc_pk: [u8; 32],
    pub sk_p: OwnerScalar,
    pub pk_p: OwnerPk,
}

/// The encryption secret of a seed: the seed stands in the second byte. X25519 clears the low
/// bits of the first one, so small seeds there would all give the same key.
pub open spec fn seeded_secret(seed: u8) -> Seq<u8> {
    Seq::new(
        32,
        |i: int|
            if i == 1 {
                seed
            } else {
                0u8
            },
    )
}

impl Party {
    /// The coin-ownership key is the one of the secret.
    pub open spec fn owns_its_key(&self) -> bool {
        self.pk_p@ == keys::owner_point(self.sk_p@) && keys::on_curve(self.pk_p@)
    }

    /// The encryption key is the one of the secret.
    pub open spec fn reads_its_key(&self) -> bool {
        self.enc_pk@ == envelope::x25519_public(self.enc_sk@)
    }

    /// The party of a name and a seed.
    pub open spec fn is_seeded(&self, name: Seq<char>, seed: u8) -> bool {
        &&& self.name@ == name
        &&& self.enc_sk@ == seeded_secret(seed)
        &&& self.reads_its_key()
        &&& self.sk_p@ == seed + 100
        &&& self.owns_its_key()
    }

    /// The party that mints.
    pub open spec fn is_genesis(&self) -> bool {
        &&& self.name@ == "Genesis"@
        &&& self.enc_sk@ == Seq::new(32, |i: int| 0u8)
        &&& self.enc_pk@ == Seq::new(32, |i: int| 0u8)
        &&& self.sk_p@ == 1
        &&& self.owns_its_key()
    }

    /// A party from a seed. Its ownership secret stays clear of the genesis secret.
    pub fn new(name: &'static str, seed: u8) -> (r: Party)
        ensures
            r.is_seeded(name@, seed),
    {
        let mut enc_sk: [u8; 32] = [0u8; 32];
        enc_sk[1] = seed;
        assert(enc_sk@ =~= seeded_secret(seed));
        let enc_pk = derive_enc_pk(&enc_sk);
        let sk_p = OwnerScalar::from(seed as u64 + 100);
        let pk_p = derive_owner_pk(&sk_p);
        Party { name, enc_sk, enc_pk, sk_p, pk_p }
    }

    /// The party that mints. Nobody encrypts to it.
    pub fn genesis() -> (r: Party)
        ensures
            r.is_genesis(),
    {
        let r = Party {
            name: "Genesis",
            enc_sk: [0u8; 32],
            enc_pk: [0u8; 32],
            sk_p: genesis_sk(),
            pk_p: genesis_pk(),
        };
        assert(r.enc_sk@ =~= Seq::new(32, |i: int| 0u8));
        assert(r.enc_pk@ =~= Seq::new(32, |i: int| 0u8));
        r
    }
}

/// A coin with randomness from a seed.
pub fn coin(seed: u8, value: u64, owner_pk: OwnerPk) -> (r: Coin)
    ensures
        r.value == value,
        r.rand@ == seed + 1000,
        r.owner_pk == owner_pk,
{
    Coin { value, rand: Fr::from(seed as u64 + 1000), owner_pk }
}

/// Commitments, filled up with zeros to as many as a spend has outputs.
pub open spec fn padded(values: Seq<nat>) -> Seq<nat> {
    Seq::new(
        MAX_OUTPUTS as nat,
        |i: int|
            if i < values.len() {
                values[i]
            } else {
                0
            },
    )
}

/// Fill up output commitments with zeros. The public outputs of a spend's circuit and the
/// board entry of the same transaction have to agree on this, or the entry's leaf is not the
/// one that the circuit computes.
pub fn pad_outputs(outputs: &[Fr]) -> (r: [Fr; MAX_OUTPUTS])
    requires
        outputs@.len() <= MAX_OUTPUTS,
    ensures
        field::fr_values(r@) == padded(field::fr_values(outputs@)),
{
    let zero = Fr::from(0u64);
    let first = if outputs.len() > 0 {
        outputs[0]
    } else {
        zero
    };
    let second = if outputs.len() > 1 {
        outputs[1]
    } else {
        zero
    };
    let r = [first, second];
    assert(field::fr_values(r@) =~= padded(field::fr_values(outputs@)));
    r
}

/// Whether a board entry and a spend's circuit agree on the outputs: the entry's list and the
/// filled-up one have the same hash. They do where the one is the other filled up and is not
/// empty.
pub fn outputs_agree(entry_outputs: &[Fr], outputs: &[Fr; MAX_OUTPUTS]) -> (r: bool)
    ensures
        r == (poseidon::poseidon(field::fr_values(entry_outputs@)) == poseidon::poseidon(
            field::fr_values(outputs@),
        )),
        0 < entry_outputs@.len() <= MAX_OUTPUTS && field::fr_values(outputs@) == padded(
            field::fr_values(entry_outputs@),
        ) ==> r,
{
    let posted = poseidon_hash(entry_outputs);
    let filled = poseidon_hash(outputs);
    proof {
        let short = field::fr_values(entry_outputs@);
        let long = field::fr_values(outputs@);
        if 0 < short.len() <= MAX_OUTPUTS && long == padded(short) {
            if short.len() == 1 {
                assert(long.last() == 0);
                assert(long.drop_last() =~= short);
            } else {
                assert(long =~= short);
            }
        }
    }
    posted == filled
}

/// The session key of a sender's transaction.
pub open spec fn session_key_of(sender_enc_sk: Seq<u8>, id: nat) -> Seq<u8> {
    envelope::sha256_digest(sender_enc_sk + codec::le_bytes(id, 8) + EK_SALT@)
}

/// The coins among outputs.
pub open spec fn output_coins(outputs: Seq<(Coin, [u8; 32])>) -> Seq<Coin> {
    outputs.map_values(|o: (Coin, [u8; 32])| o.0)
}

/// The recipients' encryption keys among outputs.
pub open spec fn output_keys(outputs: Seq<(Coin, [u8; 32])>) -> Seq<Seq<u8>> {
    outputs.map_values(|o: (Coin, [u8; 32])| o.1@)
}

/// The transaction that [`make_tx`] makes.
pub open spec fn made_transaction(
    id: nat,
    session_key: Seq<u8>,
    input_coins: Seq<Coin>,
    outputs: Seq<(Coin, [u8; 32])>,
) -> coin::TransactionView {
    coin::TransactionView {
        id,
        input_commitments: coin::coin_commitments(input_coins),
        output_commitments: coin::coin_commitments(output_coins(outputs)),
        note_encs: Seq::new(
            outputs.len(),
            |i: int| envelope::encrypted_note(session_key, i as nat, outputs[i].0@),
        ),
        spend_proof: Seq::empty(),
    }
}

/// The commitments of coins.
pub fn commitments_of(coins: &[Coin]) -> (r: Vec<Fr>)
    ensures
        field::fr_values(r@) == coin::coin_commitments(coins@),
        r@.len() == coins@.len(),
        codec::are_elements(coin::coin_commitments(coins@)),
{
    let mut out: Vec<Fr> = Vec::new();
    let mut i: usize = 0;
    while i < coins.len()
        invariant
            i <= coins@.len(),
            out@.len() == i,
            forall|j: int|
                0 <= j < i ==> (#[trigger] out@[j])@ == coin::coin_commitment(coins@[j]@),
            forall|j: int| 0 <= j < i ==> (#[trigger] out@[j])@ < field::fr_modulus(),
        decreases coins@.len() - i,
    {
        let commitment = coins[i].commitment();
        proof {
            use_type_invariant(&commitment);
        }
        out.push(commitment);
        i += 1;
    }
    proof {
        let wanted = coin::coin_commitments(coins@);
        assert(field::fr_values(out@) =~= wanted);
        assert(wanted.len() == out.len());
        assert forall|j: int| 0 <= j < wanted.len() implies #[trigger] wanted[j]
            < field::fr_modulus() by {
            assert(wanted[j] == out@[j]@);
        }
    }
    out
}

/// Make a transaction, with a session key of its own from the sender's encryption secret and
/// the transaction's number. Returns the transaction without a spend proof, the session key
/// and the recipients' encryption keys, as [`envelope::encrypt_tx`] takes them.
pub fn make_tx(
    id: u64,
    sender_enc_sk: [u8; 32],
    input_coins: &[Coin],
    outputs: &[(Coin, [u8; 32])],
) -> (r: (Transaction, [u8; 32], Vec<[u8; 32]>))
    ensures
        r.1@ == session_key_of(sender_enc_sk@, id as nat),
        r.0@ == made_transaction(id as nat, r.1@, input_coins@, outputs@),
        board::key_seqs(r.2@) == output_keys(outputs@),
        codec::are_elements(r.0@.input_commitments),
        codec::are_elements(r.0@.output_commitments),
        forall|i: int|
            #![trigger r.0.note_encs@[i]]
            0 <= i < outputs@.len() && keys::on_curve(outputs@[i].0.owner_pk@)
                ==> envelope::decrypted_note(r.1@, i as nat, r.0.note_encs@[i]@) == Some(
                outputs@[i].0@,
            ),
{
    let mut seed: Vec<u8> = Vec::new();
    push_bytes(&mut seed, &sender_enc_sk);
    push_u64(&mut seed, id);
    push_bytes(&mut seed, &EK_SALT);
    assert(seed@ =~= sender_enc_sk@ + codec::le_bytes(id as nat, 8) + EK_SALT@);
    let session_key = sha256(seed.as_slice());

    let mut recipient_enc_pks: Vec<[u8; 32]> = Vec::new();
    let mut output_commitments: Vec<Fr> = Vec::new();
    let mut note_encs: Vec<Vec<u8>> = Vec::new();
    let mut i: usize = 0;
    while i < outputs.len()
        invariant
            i <= outputs@.len(),
            recipient_enc_pks@.len() == i,
            output_commitments@.len() == i,
            note_encs@.len() == i,
            forall|j: int| 0 <= j < i ==> (#[trigger] recipient_enc_pks@[j])@ == outputs@[j].1@,
            forall|j: int|
                0 <= j < i ==> (#[trigger] output_commitments@[j])@ == coin::coin_commitment(
                    outputs@[j].0@,
                ),
            forall|j: int|
                0 <= j < i ==> (#[trigger] output_commitments@[j])@ < field::fr_modulus(),
            forall|j: int|
                0 <= j < i ==> (#[trigger] note_encs@[j])@ == envelope::encrypted_note(
                    session_key@,
                    j as nat,
                    outputs@[j].0@,
                ),
            forall|j: int|
                #![trigger note_encs@[j]]
                0 <= j < i && keys::on_curve(outputs@[j].0.owner_pk@) ==> envelope::decrypted_note(
                    session_key@,
                    j as nat,
                    note_encs@[j]@,
                ) == Some(outputs@[j].0@),
        decreases outputs@.len() - i,
    {
        let (c, recipient) = outputs[i];
        recipient_enc_pks.push(recipient);
        let commitment = c.commitment();
        proof {
            use_type_invariant(&commitment);
        }
        output_commitments.push(commitment);
        note_encs.push(build_note_enc(&session_key, i, &c));
        i += 1;
    }
    let tx = Transaction {
        id,
        input_commitments: commitments_of(input_coins),
        output_commitments,
        note_encs,
        spend_proof: Vec::new(),
    };
    proof {
        let wanted = made_transaction(id as nat, session_key@, input_coins@, outputs@);
        assert(tx@.output_commitments =~= wanted.output_commitments);
        assert(tx@.note_encs =~= wanted.note_encs);
        assert(tx@ =~= wanted);
        assert(tx@.output_commitments.len() == tx.output_commitments.len());
        assert forall|j: int| 0 <= j < tx@.output_commitments.len() implies (
        #[trigger] tx@.output_commitments[j]) < field::fr_modulus() by {
            assert(tx@.output_commitments[j] == tx.output_commitments@[j]@);
        }
        assert(board::key_seqs(recipient_enc_pks@) =~= output_keys(outputs@));
    }
    (tx, session_key, recipient_enc_pks)
}

/// A party's secrets come from its seed: the encryption secret has it in its second byte and
/// zeros elsewhere, and the ownership secret is 100 above it. Its keys are those of its secrets.
pub proof fn party_comes_from_its_seed(
    name: &'static str,
    seed: u8,
    r: Party,
    enc_pk: [u8; 32],
    pk: OwnerPk,
    i: int,
)
    requires
        call_ensures(Party::new, (name, seed), r),
        call_ensures(derive_enc_pk, (&r.enc_sk,), enc_pk),
        call_ensures(derive_owner_pk, (&r.sk_p,), pk),
        0 <= i < 32,
    ensures
        r.name@ == name@,
        r.enc_sk@[1] == seed,
        i != 1 ==> r.enc_sk@[i] == 0,
        r.sk_p@ == 100 + seed,
        r.enc_pk@ == enc_pk@,
        r.pk_p@ == pk@,
{
}

/// Parties of different seeds have different secrets, and none has the secret of the party
/// that mints, whose key is the genesis key.
pub proof fn parties_have_secrets_of_their_own(
    a_name: &'static str,
    a_seed: u8,
    a: Party,
    b_name: &'static str,
    b_seed: u8,
    b: Party,
    minter: Party,
    genesis: OwnerPk,
)
    requires
        call_ensures(Party::new, (a_name, a_seed), a),
        call_ensures(Party::new, (b_name, b_seed), b),
        call_ensures(Party::genesis, (), minter),
        call_ensures(genesis_pk, (), genesis),
    ensures
        a_seed != b_seed ==> a.enc_sk@ != b.enc_sk@ && a.sk_p@ != b.sk_p@,
        a.sk_p@ != minter.sk_p@,
        minter.pk_p@ == genesis@,
        minter.sk_p@ == 1,
{
    assert(a.enc_sk@[1] == a_seed && b.enc_sk@[1] == b_seed);
}

/// Filling up keeps every commitment at its place and puts zeros behind them.
pub proof fn filling_up_keeps_commitments(outputs: &[Fr], r: [Fr; MAX_OUTPUTS], i: int)
    requires
        outputs@.len() <= MAX_OUTPUTS,
        call_ensures(pad_outputs, (outputs,), r),
        0 <= i < 2,
    ensures
        i < outputs@.len() ==> r@[i]@ == outputs@[i]@,
        i >= outputs@.len() ==> r@[i]@ == 0,
{
    assert(field::fr_values(r@)[i] == r@[i]@);
    if i < outputs@.len() {
        assert(field::fr_values(outputs@)[i] == outputs@[i]@);
    }
}

/// An entry and a circuit agree on the outputs if and only if hashing the one list and hashing
/// the other gives the same.
pub proof fn agreement_is_of_hashes(
    entry_outputs: &[Fr],
    outputs: &[Fr; MAX_OUTPUTS],
    r: bool,
    posted: Fr,
    same: &[Fr],
    filled: Fr,
)
    requires
        call_ensures(outputs_agree, (entry_outputs, outputs), r),
        call_ensures(poseidon_hash, (entry_outputs,), posted),
        same@ == outputs@,
        call_ensures(poseidon_hash, (same,), filled),
    ensures
        r <==> posted@ == filled@,
{
}

/// A transaction commits to its coins: every input and every output commitment is that of the
/// coin at the same place, there are as many notes as outputs, it has no spend proof yet, and
/// the recipients' keys are those that were given.
pub proof fn transaction_commits_to_its_coins(
    id: u64,
    sender_enc_sk: [u8; 32],
    input_coins: &[Coin],
    outputs: &[(Coin, [u8; 32])],
    r: (Transaction, [u8; 32], Vec<[u8; 32]>),
    i: int,
    commitment: Fr,
)
    requires
        call_ensures(make_tx, (id, sender_enc_sk, input_coins, outputs), r),
    ensures
        r.0.id == id,
        r.0.spend_proof@.len() == 0,
        r.0.input_commitments@.len() == input_coins@.len(),
        r.0.output_commitments@.len() == outputs@.len(),
        r.0.note_encs@.len() == outputs@.len(),
        r.2@.len() == outputs@.len(),
        0 <= i < input_coins@.len() && call_ensures(
            Coin::commitment,
            (&input_coins@[i],),
            commitment,
        ) ==> r.0.input_commitments@[i]@ == commitment@,
        0 <= i < outputs@.len() && call_ensures(Coin::commitment, (&outputs@[i].0,), commitment)
            ==> r.0.output_commitments@[i]@ == commitment@,
        0 <= i < outputs@.len() ==> r.2@[i]@ == outputs@[i].1@,
{
    let tx = r.0@;
    assert(tx.input_commitments.len() == r.0.input_commitments@.len());
    assert(tx.output_commitments.len() == r.0.output_commitments@.len());
    assert(tx.note_encs.len() == r.0.note_encs@.len());
    assert(board::key_seqs(r.2@).len() == r.2@.len());
    assert(tx.id == r.0.id as nat);
    assert(tx.spend_proof == r.0.spend_proof@);
    if 0 <= i < input_coins@.len() {
        assert(tx.input_commitments[i] == r.0.input_commitments@[i]@);
    }
    if 0 <= i < outputs@.len() {
        assert(tx.output_commitments[i] == r.0.output_commitments@[i]@);
        assert(board::key_seqs(r.2@)[i] == r.2@[i]@);
        assert(output_keys(outputs@)[i] == outputs@[i].1@);
    }
}

/// Each output's coin comes back from the note of the same index with the session key, where
/// its owner is on the curve; and the session key is the digest of the sender's encryption
/// secret, the transaction's number in eight bytes and a salt.
pub proof fn notes_open_to_the_outputs(
    id: u64,
    sender_enc_sk: [u8; 32],
    input_coins: &[Coin],
    outputs: &[(Coin, [u8; 32])],
    r: (Transaction, [u8; 32], Vec<[u8; 32]>),
    i: usize,
    note: &[u8],
    opened: Option<Coin>,
    number: Seq<u8>,
)
    requires
        call_ensures(make_tx, (id, sender_enc_sk, input_coins, outputs), r),
        i < outputs@.len(),
        note@ == r.0.note_encs@[i as int]@,
        call_ensures(envelope::decrypt_note, (&r.1, i, note), opened),
        number.len() == 8,
        field::bytes_value(number) == id,
    ensures
        keys::on_curve(outputs@[i as int].0.owner_pk@) ==> opened is Some && opened->0@
            == outputs@[i as int].0@,
        r.1@ == envelope::sha256_digest(
            sender_enc_sk@ + number + seq![67u8, 76u8, 79u8, 65u8, 75u8, 69u8, 75u8, 49u8],
        ),
{
    codec::digits_of_the_value_are_the_bytes(number);
    assert(EK_SALT@ =~= seq![67u8, 76u8, 79u8, 65u8, 75u8, 69u8, 75u8, 49u8]);
}

/// Commitments are listed coin by coin.
pub proof fn commitments_are_listed_coin_by_coin(
    coins: &[Coin],
    r: Vec<Fr>,
    i: int,
    commitment: Fr,
)
    requires
        call_ensures(commitments_of, (coins,), r),
        0 <= i < coins@.len(),
        call_ensures(Coin::commitment, (&coins@[i],), commitment),
    ensures
        r@.len() == coins@.len(),
        r@[i]@ == commitment@,
{
    assert(field::fr_values(r@)[i] == r@[i]@);
}

/// A coin from a seed has the given value and owner, and randomness 1000 above the seed.
pub proof fn coin_comes_from_its_seed(seed: u8, value: u64, owner_pk: OwnerPk, r: Coin)
    requires
        call_ensures(coin, (seed, value, owner_pk), r),
    ensures
        r.value == value,
        r.owner_pk@ == owner_pk@,
        r.rand@ == 1000 + seed,
{
}

} // verus!
