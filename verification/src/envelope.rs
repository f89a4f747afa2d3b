//! Sender-anonymous encryption of transactions and notes.
//!
//! This is wallet-side bookkeeping: it delivers the opening of a coin to its
//! recipient, and no circuit depends on it. X25519 keys are separate from
//! coin-ownership keys; each party holds both.
//!
//! A transaction is encrypted with a session key, which is wrapped for each
//! recipient through an X25519 exchange with an ephemeral key. The sender is never
//! identified: a recipient uses their own secret and the ephemeral public key. The
//! note of output `i` is encrypted with a key derived from the session key and `i`.

use vstd::prelude::*;
use sha2::{Digest, Sha256};
use x25519_dalek::{PublicKey as X25519PublicKey, StaticSecret as X25519Secret};
use crate::board;
use crate::board::BoardEntry;
use crate::codec;
use crate::codec::{decode_coin, decode_transaction, encode_coin, encode_transaction};
use crate::coin;
use crate::coin::{copy_frs, Coin, Transaction};
use crate::field;
use crate::field::OwnerScalar;
use crate::keys;
use crate::merkle;
use crate::poseidon;
use crate::poseidon::{fold_owner_scalar, Hasher};

verus! {

/// Tag at the start of an encrypted transaction: `CLOAKTX1`.
pub const MAGIC_TAG: [u8; 8] = [67, 76, 79, 65, 75, 84, 88, 49];

/// Tag at the start of an encrypted note: `CLOAKNT1`.
pub const NOTE_MAGIC: [u8; 8] = [67, 76, 79, 65, 75, 78, 84, 49];

/// Salt for deriving the ephemeral key from the session key: `CLOAKEK1`.
pub const EK_SALT: [u8; 8] = [67, 76, 79, 65, 75, 69, 75, 49];

/// Salt for deriving the wrapping key from a shared secret: `CLOAKDH1`.
pub const DH_SALT: [u8; 8] = [67, 76, 79, 65, 75, 68, 72, 49];

/// Salt for deriving the key of a note: `CLOAKNT2`.
pub const NOTE_SALT: [u8; 8] = [67, 76, 79, 65, 75, 78, 84, 50];

/// The SHA-256 digest of bytes.
pub uninterp spec fn sha256_digest(bytes: Seq<u8>) -> Seq<u8>;

/// The X25519 public key of a secret.
pub uninterp spec fn x25519_public(secret: Seq<u8>) -> Seq<u8>;

/// The X25519 shared secret of one party's secret and the other's public key.
pub uninterp spec fn x25519_shared(secret: Seq<u8>, public: Seq<u8>) -> Seq<u8>;

/// `Sha256::digest` of `sha2`: a digest of 32 bytes that depends on the input alone.
#[verifier::external_body]
pub(crate) fn sha256(bytes: &[u8]) -> (r: [u8; 32])
    ensures
        r@ == sha256_digest(bytes@),
{
    Sha256::digest(bytes).into()
}

/// `PublicKey::from(&StaticSecret)` of `x25519-dalek`: the public key depends on the
/// secret alone.
#[verifier::external_body]
fn public_of(secret: &[u8; 32]) -> (r: [u8; 32])
    ensures
        r@ == x25519_public(secret@),
{
    *X25519PublicKey::from(&X25519Secret::from(*secret)).as_bytes()
}

/// `StaticSecret::diffie_hellman` of `x25519-dalek`: the shared secret depends on the
/// two keys alone, and the holder of the other key's secret arrives at the same one.
#[verifier::external_body]
fn shared_with(secret: &[u8; 32], public: &[u8; 32]) -> (r: [u8; 32])
    ensures
        r@ == x25519_shared(secret@, public@),
        forall|other: Seq<u8>|
            other.len() == 32 && public@ == #[trigger] x25519_public(other) ==> r@ == x25519_shared(
                other,
                x25519_public(secret@),
            ),
{
    *X25519Secret::from(*secret).diffie_hellman(&X25519PublicKey::from(*public)).as_bytes()
}

/// The byte of a key's keystream at a position.
pub open spec fn keystream_byte(key: Seq<u8>, i: int) -> u8 {
    sha256_digest(key + codec::le_bytes((i / 32) as nat, 8))[i % 32]
}

/// Data under a key's keystream.
pub open spec fn under_keystream(key: Seq<u8>, data: Seq<u8>) -> Seq<u8> {
    Seq::new(data.len(), |i: int| data[i] ^ keystream_byte(key, i))
}

/// Two keys combined bit by bit.
pub open spec fn combined_keys(a: Seq<u8>, b: Seq<u8>) -> Seq<u8> {
    Seq::new(32, |i: int| a[i] ^ b[i])
}

/// The ephemeral secret of a session.
pub open spec fn ephemeral_secret(session_key: Seq<u8>) -> Seq<u8> {
    sha256_digest(session_key + EK_SALT@)
}

/// The wrapping key of a shared secret.
pub open spec fn wrapping_key_of(shared: Seq<u8>) -> Seq<u8> {
    sha256_digest(shared + DH_SALT@)
}

/// The key of the note at an index.
pub open spec fn note_key_of(session_key: Seq<u8>, index: nat) -> Seq<u8> {
    sha256_digest(session_key + codec::le_bytes(index, 8) + NOTE_SALT@)
}

/// Derive a party's X25519 encryption public key from their encryption secret.
pub fn derive_enc_pk(enc_sk: &[u8; 32]) -> (r: [u8; 32])
    ensures
        r@ == x25519_public(enc_sk@),
{
    public_of(enc_sk)
}

/// Append bytes.
pub(crate) fn push_bytes(out: &mut Vec<u8>, bytes: &[u8])
    ensures
        final(out)@ == old(out)@ + bytes@,
{
    let mut i: usize = 0;
    while i < bytes.len()
        invariant
            i <= bytes@.len(),
            out@ == old(out)@ + bytes@.take(i as int),
        decreases bytes@.len() - i,
    {
        out.push(bytes[i]);
        i += 1;
        assert(out@ =~= old(out)@ + bytes@.take(i as int));
    }
    assert(bytes@.take(i as int) =~= bytes@);
}

/// Append the eight little-endian bytes of a number.
pub(crate) fn push_u64(out: &mut Vec<u8>, value: u64)
    ensures
        final(out)@ == old(out)@ + codec::le_bytes(value as nat, 8),
{
    let mut rest: u64 = value;
    let mut i: usize = 0;
    assert(out@ + codec::le_bytes(value as nat, 8) =~= old(out)@ + codec::le_bytes(
        value as nat,
        8,
    ));
    while i < 8
        invariant
            i <= 8,
            out@ + codec::le_bytes(rest as nat, (8 - i) as nat) == old(out)@ + codec::le_bytes(
                value as nat,
                8,
            ),
        decreases 8 - i,
    {
        let ghost before = out@;
        let ghost tail = codec::le_bytes(rest as nat, (8 - i) as nat);
        out.push((rest % 256) as u8);
        rest = rest / 256;
        i += 1;
        assert(out@ + codec::le_bytes(rest as nat, (8 - i) as nat) =~= before + tail);
    }
    assert(out@ + codec::le_bytes(rest as nat, 0) =~= out@);
}

/// Combine data with the keystream of a key. Encryption and decryption are the same
/// operation.
pub fn xor_with_keystream(key: &[u8; 32], data: &[u8]) -> (out: Vec<u8>)
    ensures
        out@ == under_keystream(key@, data@),
{
    let mut out: Vec<u8> = Vec::new();
    let mut counter: u64 = 0;
    while out.len() < data.len()
        invariant
            out@.len() <= data@.len() == data.len(),
            out@.len() == data@.len() || out@.len() == 32 * counter,
            forall|j: int|
                0 <= j < out@.len() ==> #[trigger] out@[j] == data@[j] ^ keystream_byte(key@, j),
        decreases data@.len() - out@.len(),
    {
        let mut input: Vec<u8> = Vec::new();
        push_bytes(&mut input, key);
        push_u64(&mut input, counter);
        assert(input@ =~= key@ + codec::le_bytes(counter as nat, 8));
        let block = sha256(input.as_slice());
        let start: usize = out.len();
        let mut k: usize = 0;
        while k < 32 && start + k < data.len()
            invariant
                k <= 32,
                start < data@.len() == data.len(),
                start == 32 * counter,
                out@.len() == start + k,
                out@.len() <= data@.len(),
                block@ == sha256_digest(key@ + codec::le_bytes(counter as nat, 8)),
                forall|j: int|
                    0 <= j < out@.len() ==> #[trigger] out@[j] == data@[j] ^ keystream_byte(
                        key@,
                        j,
                    ),
            decreases 32 - k,
        {
            proof {
                let j = start + k;
                assert(j / 32 == counter && j % 32 == k);
            }
            out.push(data[start + k] ^ block[k]);
            k += 1;
        }
        counter += 1;
    }
    assert(out@ =~= under_keystream(key@, data@));
    out
}

/// Combine two keys bit by bit.
fn combine_keys(a: &[u8; 32], b: &[u8; 32]) -> (out: [u8; 32])
    ensures
        out@ == combined_keys(a@, b@),
{
    let mut out: [u8; 32] = [0u8; 32];
    let mut i: usize = 0;
    while i < 32
        invariant
            i <= 32,
            forall|j: int| 0 <= j < i ==> #[trigger] out@[j] == a@[j] ^ b@[j],
        decreases 32 - i,
    {
        out[i] = a[i] ^ b[i];
        i += 1;
    }
    assert(out@ =~= combined_keys(a@, b@));
    out
}

/// The ephemeral X25519 secret of a session. It depends on the session key alone, so
/// encrypting again after attaching a spend proof gives the same ephemeral key.
pub fn ek_secret(session_key: &[u8; 32]) -> (r: [u8; 32])
    ensures
        r@ == ephemeral_secret(session_key@),
{
    let mut input: Vec<u8> = Vec::new();
    push_bytes(&mut input, session_key);
    push_bytes(&mut input, &EK_SALT);
    assert(input@ =~= session_key@ + EK_SALT@);
    sha256(input.as_slice())
}

/// The wrapping key of a shared secret.
pub fn wrapping_key(shared: &[u8; 32]) -> (r: [u8; 32])
    ensures
        r@ == wrapping_key_of(shared@),
{
    let mut input: Vec<u8> = Vec::new();
    push_bytes(&mut input, shared);
    push_bytes(&mut input, &DH_SALT);
    assert(input@ =~= shared@ + DH_SALT@);
    sha256(input.as_slice())
}

/// The key of the note at an index.
pub fn note_key(session_key: &[u8; 32], index: usize) -> (r: [u8; 32])
    ensures
        r@ == note_key_of(session_key@, index as nat),
{
    let mut input: Vec<u8> = Vec::new();
    push_bytes(&mut input, session_key);
    push_u64(&mut input, index as u64);
    push_bytes(&mut input, &NOTE_SALT);
    assert(input@ =~= session_key@ + codec::le_bytes(index as nat, 8) + NOTE_SALT@);
    sha256(input.as_slice())
}


/// The session key wrapped for a recipient.
pub open spec fn wrapped_key(session_key: Seq<u8>, recipient_pk: Seq<u8>) -> Seq<u8> {
    combined_keys(
        wrapping_key_of(x25519_shared(ephemeral_secret(session_key), recipient_pk)),
        session_key,
    )
}

/// A transaction encrypted under a session key.
pub open spec fn encrypted_transaction(tx: coin::TransactionView, session_key: Seq<u8>) -> Seq<u8> {
    under_keystream(session_key, MAGIC_TAG@ + codec::transaction_encoding(tx))
}

/// The nullifier of a coin that is spent with a secret.
pub open spec fn nullifier_of(commitment: nat, sk: nat) -> nat {
    poseidon::poseidon(seq![commitment, poseidon::folded_scalar(sk)])
}

/// The board entry of a transaction.
pub open spec fn encrypted_entry(
    tx: coin::TransactionView,
    sender_sk: nat,
    recipient_pks: Seq<Seq<u8>>,
    session_key: Seq<u8>,
) -> board::EntryView {
    board::EntryView {
        ciphertext: encrypted_transaction(tx, session_key),
        ek_pk: x25519_public(ephemeral_secret(session_key)),
        key_encs: recipient_pks.map_values(|pk: Seq<u8>| wrapped_key(session_key, pk)),
        nullifier: nullifier_of(tx.input_commitments[0], sender_sk),
        output_commitments: tx.output_commitments,
    }
}

/// The session key that the holder of a secret unwraps from a wrapped key.
pub open spec fn unwrapped_key(secret: Seq<u8>, entry: board::EntryView, i: int) -> Seq<u8> {
    combined_keys(wrapping_key_of(x25519_shared(secret, entry.ek_pk)), entry.key_encs[i])
}

/// The nullifier that spending a coin with a secret publishes.
pub fn own_nullifier(commitment: field::Fr, sk: &OwnerScalar) -> (r: field::Fr)
    ensures
        r@ == nullifier_of(commitment@, sk@),
{
    Hasher::new().hash2(commitment, fold_owner_scalar(sk))
}

/// Encrypt a transaction for its recipients, given by their X25519 encryption keys.
/// Pass the same session key when encrypting again after attaching a spend proof: the
/// ephemeral key and the wrapped keys are then unchanged. Each recipient unwraps the session
/// key.
pub fn encrypt_tx(
    tx: &Transaction,
    sender_sk: &OwnerScalar,
    recipient_pks: &[[u8; 32]],
    session_key: [u8; 32],
) -> (entry: BoardEntry)
    requires
        tx.input_commitments@.len() > 0,
    ensures
        entry@ == encrypted_entry(
            tx@,
            sender_sk@,
            board::key_seqs(recipient_pks@),
            session_key@,
        ),
        forall|secret: Seq<u8>, i: int|
            #![trigger unwrapped_key(secret, entry@, i)]
            0 <= i < recipient_pks@.len() && secret.len() == 32 && recipient_pks@[i]@
                == x25519_public(secret) ==> unwrapped_key(secret, entry@, i) == session_key@,
        codec::transaction_record(tx@).fits(),
{
    let ek_sk = ek_secret(&session_key);
    let ek_pk = public_of(&ek_sk);

    let tx_bytes = encode_transaction(tx);
    let mut plaintext: Vec<u8> = Vec::new();
    push_bytes(&mut plaintext, &MAGIC_TAG);
    push_bytes(&mut plaintext, tx_bytes.as_slice());
    assert(plaintext@ =~= MAGIC_TAG@ + codec::transaction_encoding(tx@));
    let ciphertext = xor_with_keystream(&session_key, plaintext.as_slice());

    let mut key_encs: Vec<[u8; 32]> = Vec::new();
    let mut i: usize = 0;
    while i < recipient_pks.len()
        invariant
            i <= recipient_pks@.len(),
            key_encs@.len() == i,
            ek_sk@ == ephemeral_secret(session_key@),
            forall|j: int|
                0 <= j < i ==> (#[trigger] key_encs@[j])@ == wrapped_key(
                    session_key@,
                    recipient_pks@[j]@,
                ),
            forall|secret: Seq<u8>, j: int|
                #![trigger x25519_public(secret), recipient_pks@[j]]
                0 <= j < i && secret.len() == 32 && recipient_pks@[j]@ == x25519_public(secret)
                    ==> x25519_shared(ek_sk@, recipient_pks@[j]@) == x25519_shared(
                    secret,
                    x25519_public(ek_sk@),
                ),
        decreases recipient_pks@.len() - i,
    {
        let shared = shared_with(&ek_sk, &recipient_pks[i]);
        let wk = wrapping_key(&shared);
        key_encs.push(combine_keys(&wk, &session_key));
        i += 1;
    }

    let nullifier = own_nullifier(tx.input_commitments[0], sender_sk);
    let output_commitments = copy_frs(tx.output_commitments.as_slice());
    let entry = BoardEntry { ciphertext, ek_pk, key_encs, nullifier, output_commitments };
    proof {
        let pks = board::key_seqs(recipient_pks@);
        let wanted = encrypted_entry(tx@, sender_sk@, pks, session_key@);
        assert(entry@.key_encs =~= wanted.key_encs);
        assert(entry@ =~= wanted);
        assert forall|secret: Seq<u8>, j: int|
            #![trigger unwrapped_key(secret, entry@, j)]
            0 <= j < recipient_pks@.len() && secret.len() == 32 && recipient_pks@[j]@
                == x25519_public(secret) implies unwrapped_key(secret, entry@, j)
            == session_key@ by {
            let pk = recipient_pks@[j]@;
            let wk = wrapping_key_of(x25519_shared(ek_sk@, pk));
            assert(entry@.key_encs[j] == combined_keys(wk, session_key@));
            lemma_combining_twice(wk, session_key@);
        }
    }
    entry
}

/// Combining with the same key twice gives the other key back.
pub proof fn lemma_combining_twice(a: Seq<u8>, b: Seq<u8>)
    requires
        b.len() == 32,
    ensures
        combined_keys(a, combined_keys(a, b)) == b,
{
    assert forall|i: int| 0 <= i < 32 implies combined_keys(a, combined_keys(a, b))[i]
        == #[trigger] b[i] by {
        let x = a[i];
        let y = b[i];
        assert(x ^ (x ^ y) == y) by (bit_vector);
    }
    assert(combined_keys(a, combined_keys(a, b)) =~= b);
}

/// Encryption and decryption are the same operation: applying a keystream twice gives
/// the data back.
pub proof fn keystream_is_its_own_inverse(key: Seq<u8>, data: Seq<u8>)
    ensures
        under_keystream(key, under_keystream(key, data)) == data,
{
    let twice = under_keystream(key, under_keystream(key, data));
    assert forall|i: int| 0 <= i < data.len() implies twice[i] == #[trigger] data[i] by {
        let x = data[i];
        let k = keystream_byte(key, i);
        assert((x ^ k) ^ k == x) by (bit_vector);
    }
    assert(twice =~= data);
}

/// A session key opens a ciphertext: there is more than a tag, and the tag is right.
pub open spec fn tag_matches(session_key: Seq<u8>, ciphertext: Seq<u8>) -> bool {
    ciphertext.len() > 8 && under_keystream(session_key, ciphertext).take(8) == MAGIC_TAG@
}

/// The transaction that a session key decrypts from a ciphertext.
pub open spec fn decrypted_transaction(session_key: Seq<u8>, ciphertext: Seq<u8>) -> Option<
    coin::TransactionView,
> {
    if tag_matches(session_key, ciphertext) {
        codec::transaction_decoded(under_keystream(session_key, ciphertext).skip(8))
    } else {
        None
    }
}

/// The transaction that the first fitting wrapped key from `i` on decrypts.
pub open spec fn scanned_from(secret: Seq<u8>, entry: board::EntryView, i: int) -> Option<
    coin::TransactionView,
>
    decreases entry.key_encs.len() - i,
{
    if i < 0 || i >= entry.key_encs.len() {
        None
    } else {
        match decrypted_transaction(unwrapped_key(secret, entry, i), entry.ciphertext) {
            Some(tx) => Some(tx),
            None => scanned_from(secret, entry, i + 1),
        }
    }
}

/// The first unwrapped key from `i` on whose tag matches.
pub open spec fn recovered_from(secret: Seq<u8>, entry: board::EntryView, i: int) -> Option<Seq<u8>>
    decreases entry.key_encs.len() - i,
{
    if i < 0 || i >= entry.key_encs.len() {
        None
    } else if tag_matches(unwrapped_key(secret, entry, i), entry.ciphertext) {
        Some(unwrapped_key(secret, entry, i))
    } else {
        recovered_from(secret, entry, i + 1)
    }
}

/// Whether the first eight bytes are a tag.
fn has_tag(bytes: &Vec<u8>, tag: &[u8; 8]) -> (r: bool)
    requires
        bytes@.len() >= 8,
    ensures
        r == (bytes@.take(8) == tag@),
{
    let mut i: usize = 0;
    while i < 8
        invariant
            i <= 8 <= bytes@.len(),
            forall|j: int| 0 <= j < i ==> bytes@[j] == tag@[j],
        decreases 8 - i,
    {
        if bytes[i] != tag[i] {
            assert(bytes@.take(8)[i as int] != tag@[i as int]);
            return false;
        }
        i += 1;
    }
    assert(bytes@.take(8) =~= tag@);
    true
}

/// The wrapping key that an entry shares with the holder of a secret.
fn entry_wrapping_key(owner_sk: &[u8; 32], entry: &BoardEntry) -> (r: [u8; 32])
    ensures
        r@ == wrapping_key_of(x25519_shared(owner_sk@, entry@.ek_pk)),
{
    let shared = shared_with(owner_sk, &entry.ek_pk);
    wrapping_key(&shared)
}

/// Decrypt a board entry with the recipient's X25519 secret: try each wrapped key; the
/// one that yields the session key decrypts the ciphertext. No sender identity is
/// needed or revealed.
pub fn scan_entry(owner_sk: &[u8; 32], entry: &BoardEntry) -> (r: Option<Transaction>)
    ensures
        r is Some == scanned_from(owner_sk@, entry@, 0) is Some,
        r matches Some(tx) ==> scanned_from(owner_sk@, entry@, 0) == Some(tx@),
{
    let wk = entry_wrapping_key(owner_sk, entry);
    let mut i: usize = 0;
    while i < entry.key_encs.len()
        invariant
            i <= entry.key_encs@.len(),
            wk@ == wrapping_key_of(x25519_shared(owner_sk@, entry@.ek_pk)),
            scanned_from(owner_sk@, entry@, 0) == scanned_from(owner_sk@, entry@, i as int),
        decreases entry.key_encs@.len() - i,
    {
        let session_key = combine_keys(&wk, &entry.key_encs[i]);
        assert(session_key@ == unwrapped_key(owner_sk@, entry@, i as int));
        if entry.ciphertext.len() > 8 {
            let bytes = xor_with_keystream(&session_key, entry.ciphertext.as_slice());
            if has_tag(&bytes, &MAGIC_TAG) {
                let body = vstd::slice::slice_subrange(bytes.as_slice(), 8, bytes.len());
                assert(body@ =~= bytes@.skip(8));
                let decoded = decode_transaction(body);
                if decoded.is_some() {
                    return decoded;
                }
            }
        }
        i += 1;
    }
    None
}

/// Recover the session key of a board entry, to encrypt it again or to decrypt its
/// notes.
pub fn recover_session_key(owner_sk: &[u8; 32], entry: &BoardEntry) -> (r: Option<[u8; 32]>)
    ensures
        r is Some == recovered_from(owner_sk@, entry@, 0) is Some,
        r matches Some(key) ==> recovered_from(owner_sk@, entry@, 0) == Some(key@),
{
    let wk = entry_wrapping_key(owner_sk, entry);
    let mut i: usize = 0;
    while i < entry.key_encs.len()
        invariant
            i <= entry.key_encs@.len(),
            wk@ == wrapping_key_of(x25519_shared(owner_sk@, entry@.ek_pk)),
            recovered_from(owner_sk@, entry@, 0) == recovered_from(owner_sk@, entry@, i as int),
        decreases entry.key_encs@.len() - i,
    {
        let session_key = combine_keys(&wk, &entry.key_encs[i]);
        assert(session_key@ == unwrapped_key(owner_sk@, entry@, i as int));
        if entry.ciphertext.len() > 8 {
            let bytes = xor_with_keystream(&session_key, entry.ciphertext.as_slice());
            if has_tag(&bytes, &MAGIC_TAG) {
                return Some(session_key);
            }
        }
        i += 1;
    }
    None
}

/// The note of a coin.
pub open spec fn encrypted_note(session_key: Seq<u8>, index: nat, c: coin::CoinView) -> Seq<u8> {
    under_keystream(note_key_of(session_key, index), NOTE_MAGIC@ + codec::coin_encoding(c))
}

/// The coin that a session key decrypts from a note.
pub open spec fn decrypted_note(session_key: Seq<u8>, index: nat, note: Seq<u8>) -> Option<
    coin::CoinView,
> {
    let plain = under_keystream(note_key_of(session_key, index), note);
    if note.len() <= 8 || plain.take(8) != NOTE_MAGIC@ {
        None
    } else {
        codec::coin_decoded(plain.skip(8))
    }
}

/// Encrypt a coin as the note of output `index`. For an owner on the curve, decrypting
/// the note with the same session key and index gives the coin back.
pub fn build_note_enc(session_key: &[u8; 32], index: usize, c: &Coin) -> (note: Vec<u8>)
    ensures
        note@ == encrypted_note(session_key@, index as nat, c@),
        keys::on_curve(c.owner_pk@) ==> decrypted_note(session_key@, index as nat, note@) == Some(
            c@,
        ),
{
    let key = note_key(session_key, index);
    let coin_bytes = encode_coin(c);
    let mut payload: Vec<u8> = Vec::new();
    push_bytes(&mut payload, &NOTE_MAGIC);
    push_bytes(&mut payload, coin_bytes.as_slice());
    assert(payload@ =~= NOTE_MAGIC@ + coin_bytes@);
    proof {
        keystream_is_its_own_inverse(key@, payload@);
        assert(payload@.take(8) =~= NOTE_MAGIC@);
        assert(payload@.skip(8) =~= coin_bytes@ + Seq::<u8>::empty());
        codec::lemma_le_bytes_len(c.value as nat, 8);
    }
    xor_with_keystream(&key, payload.as_slice())
}

/// Decrypt the note of output `index`; `None` where the session key is not the right one.
pub fn decrypt_note(session_key: &[u8; 32], index: usize, note_enc: &[u8]) -> (r: Option<Coin>)
    ensures
        r is Some == decrypted_note(session_key@, index as nat, note_enc@) is Some,
        r matches Some(c) ==> decrypted_note(session_key@, index as nat, note_enc@) == Some(c@),
{
    let key = note_key(session_key, index);
    let dec = xor_with_keystream(&key, note_enc);
    if dec.len() <= 8 || !has_tag(&dec, &NOTE_MAGIC) {
        return None;
    }
    let body = vstd::slice::slice_subrange(dec.as_slice(), 8, dec.len());
    assert(body@ =~= dec@.skip(8));
    decode_coin(body)
}

/// Encrypting again after the spend proof was attached keeps the ephemeral key, the
/// wrapped keys, the nullifier and the commitments.
pub proof fn attaching_a_proof_keeps_the_keys(
    tx: coin::TransactionView,
    spend_proof: Seq<u8>,
    sender_sk: nat,
    recipient_pks: Seq<Seq<u8>>,
    session_key: Seq<u8>,
)
    ensures
        ({
            let proven = coin::TransactionView { spend_proof, ..tx };
            let before = encrypted_entry(tx, sender_sk, recipient_pks, session_key);
            let after = encrypted_entry(proven, sender_sk, recipient_pks, session_key);
            &&& after.ek_pk == before.ek_pk
            &&& after.key_encs == before.key_encs
            &&& after.nullifier == before.nullifier
            &&& after.output_commitments == before.output_commitments
        }),
{
}

/// The session key decrypts what it encrypted.
pub proof fn session_key_decrypts_transaction(tx: coin::TransactionView, session_key: Seq<u8>)
    requires
        codec::transaction_fits(tx),
    ensures
        tag_matches(session_key, encrypted_transaction(tx, session_key)),
        decrypted_transaction(session_key, encrypted_transaction(tx, session_key)) == Some(tx),
{
    let encoding = codec::transaction_encoding(tx);
    let plain = MAGIC_TAG@ + encoding;
    keystream_is_its_own_inverse(session_key, plain);
    codec::lemma_le_bytes_len(tx.id, 8);
    assert(plain.take(8) =~= MAGIC_TAG@);
    assert(plain.skip(8) =~= encoding + Seq::<u8>::empty());
    codec::decoding_inverts_transaction_encoding(tx, Seq::empty());
}

/// Whoever unwraps the session key from the wrapped key at `i`, and nothing from those
/// before it, finds the transaction and the session key.
pub proof fn recipient_finds_the_transaction(
    tx: coin::TransactionView,
    session_key: Seq<u8>,
    secret: Seq<u8>,
    entry: board::EntryView,
    i: int,
)
    requires
        codec::transaction_fits(tx),
        0 <= i < entry.key_encs.len(),
        entry.ciphertext == encrypted_transaction(tx, session_key),
        unwrapped_key(secret, entry, i) == session_key,
        forall|j: int|
            0 <= j < i ==> !tag_matches(
                #[trigger] unwrapped_key(secret, entry, j),
                entry.ciphertext,
            ),
    ensures
        scanned_from(secret, entry, 0) == Some(tx),
        recovered_from(secret, entry, 0) == Some(session_key),
{
    session_key_decrypts_transaction(tx, session_key);
    lemma_scan_skips(secret, entry, 0, i);
}

proof fn lemma_scan_skips(secret: Seq<u8>, entry: board::EntryView, from: int, i: int)
    requires
        0 <= from <= i < entry.key_encs.len(),
        forall|j: int|
            0 <= j < i ==> !tag_matches(
                #[trigger] unwrapped_key(secret, entry, j),
                entry.ciphertext,
            ),
    ensures
        scanned_from(secret, entry, from) == scanned_from(secret, entry, i),
        recovered_from(secret, entry, from) == recovered_from(secret, entry, i),
    decreases i - from,
{
    if from < i {
        assert(!tag_matches(unwrapped_key(secret, entry, from), entry.ciphertext));
        lemma_scan_skips(secret, entry, from + 1, i);
    }
}

/// A scan that finds a transaction found it under a key whose tag matches, so the
/// session key can be recovered too.
pub proof fn scanned_entry_has_a_session_key(secret: Seq<u8>, entry: board::EntryView, from: int)
    requires
        from >= 0,
        scanned_from(secret, entry, from) is Some,
    ensures
        recovered_from(secret, entry, from) is Some,
    decreases entry.key_encs.len() - from,
{
    if !tag_matches(unwrapped_key(secret, entry, from), entry.ciphertext) {
        scanned_entry_has_a_session_key(secret, entry, from + 1);
    }
}

/// A nullifier binds the coin's commitment and the secret: the same coin spent with the same
/// secret always publishes the same one, and any two others publish different ones, unless
/// there is a collision of the hash.
pub proof fn nullifier_binds_coin_and_secret(c: nat, sk: nat, other_c: nat, other_sk: nat)
    requires
        sk < field::owner_modulus(),
        other_sk < field::owner_modulus(),
        nullifier_of(c, sk) == nullifier_of(other_c, other_sk),
    ensures
        (c == other_c && sk == other_sk) || merkle::collision_exists(),
{
    let left = seq![c, poseidon::folded_scalar(sk)];
    let right = seq![other_c, poseidon::folded_scalar(other_sk)];
    if left == right {
        assert(left[0] == c && left[1] == poseidon::folded_scalar(sk));
        assert(right[0] == other_c && right[1] == poseidon::folded_scalar(other_sk));
        let digits = poseidon::scalar_elements(sk);
        let other_digits = poseidon::scalar_elements(other_sk);
        if digits == other_digits {
            poseidon::digits_determine_scalar(sk, other_sk);
        } else {
            vstd::arithmetic::power2::lemma_pow2_pos(248);
            assert(merkle::collision(digits, other_digits));
        }
    } else {
        assert(merkle::collision(left, right));
    }
}

/// An entry publishes the nullifier of the transaction's first input under the sender's secret,
/// however many inputs there are.
pub proof fn entry_publishes_the_first_inputs_nullifier(
    tx: &Transaction,
    sender_sk: &OwnerScalar,
    recipient_pks: &[[u8; 32]],
    session_key: [u8; 32],
    entry: BoardEntry,
    nullifier: field::Fr,
)
    requires
        tx.input_commitments@.len() > 0,
        call_ensures(encrypt_tx, (tx, sender_sk, recipient_pks, session_key), entry),
        call_ensures(own_nullifier, (tx.input_commitments@[0], sender_sk), nullifier),
    ensures
        entry.nullifier@ == nullifier@,
{
    assert(entry@.nullifier == entry.nullifier@);
    assert(tx@.input_commitments[0] == tx.input_commitments@[0]@);
}

/// A nullifier is the hash of the coin's commitment and of the folded secret.
pub proof fn nullifier_is_a_hash_of_coin_and_secret(
    commitment: field::Fr,
    sk: &OwnerScalar,
    nullifier: field::Fr,
    folded: field::Fr,
    inputs: &[field::Fr],
    hash: field::Fr,
)
    requires
        call_ensures(own_nullifier, (commitment, sk), nullifier),
        call_ensures(fold_owner_scalar, (sk,), folded),
        inputs@ == seq![commitment, folded],
        call_ensures(poseidon::poseidon_hash, (inputs,), hash),
    ensures
        nullifier@ == hash@,
{
    assert(field::fr_values(inputs@) =~= seq![commitment@, folded@]);
}

/// An entry publishes all of the transaction's output commitments in order, one wrapped key for
/// each recipient, and the public key of the session's ephemeral secret.
pub proof fn entry_publishes_outputs_and_keys(
    tx: &Transaction,
    sender_sk: &OwnerScalar,
    recipient_pks: &[[u8; 32]],
    session_key: [u8; 32],
    entry: BoardEntry,
    ephemeral: [u8; 32],
    public: [u8; 32],
    i: int,
)
    requires
        tx.input_commitments@.len() > 0,
        call_ensures(encrypt_tx, (tx, sender_sk, recipient_pks, session_key), entry),
        call_ensures(ek_secret, (&session_key,), ephemeral),
        call_ensures(derive_enc_pk, (&ephemeral,), public),
    ensures
        entry.output_commitments@.len() == tx.output_commitments@.len(),
        0 <= i < tx.output_commitments@.len() ==> entry.output_commitments@[i]@
            == tx.output_commitments@[i]@,
        entry.key_encs@.len() == recipient_pks@.len(),
        entry.ek_pk@ == public@,
{
    assert(entry@.output_commitments == tx@.output_commitments);
    assert(entry@.output_commitments.len() == entry.output_commitments@.len());
    assert(tx@.output_commitments.len() == tx.output_commitments@.len());
    assert(entry@.key_encs.len() == entry.key_encs@.len());
    assert(board::key_seqs(recipient_pks@).len() == recipient_pks@.len());
    if 0 <= i < tx.output_commitments@.len() {
        assert(entry@.output_commitments[i] == entry.output_commitments@[i]@);
        assert(tx@.output_commitments[i] == tx.output_commitments@[i]@);
    }
}

/// Whoever holds the secret of a recipient's key finds the transaction in the entry, and the
/// session key, unless a key that was wrapped for a recipient before them happens to open it
/// too.
pub proof fn every_recipient_reads_the_entry(
    tx: &Transaction,
    sender_sk: &OwnerScalar,
    recipient_pks: &[[u8; 32]],
    session_key: [u8; 32],
    entry: &BoardEntry,
    i: int,
    secret: &[u8; 32],
    public: [u8; 32],
    found: Option<Transaction>,
    key: Option<[u8; 32]>,
)
    requires
        tx.input_commitments@.len() > 0,
        codec::are_elements(tx@.input_commitments),
        codec::are_elements(tx@.output_commitments),
        call_ensures(encrypt_tx, (tx, sender_sk, recipient_pks, session_key), *entry),
        0 <= i < recipient_pks@.len(),
        call_ensures(derive_enc_pk, (secret,), public),
        recipient_pks@[i]@ == public@,
        forall|j: int|
            0 <= j < i ==> !tag_matches(
                #[trigger] unwrapped_key(secret@, entry@, j),
                entry.ciphertext@,
            ),
        call_ensures(scan_entry, (secret, entry), found),
        call_ensures(recover_session_key, (secret, entry), key),
    ensures
        found matches Some(back) && back@ == tx@,
        key matches Some(recovered) && recovered@ == session_key@,
{
    assert(unwrapped_key(secret@, entry@, i) == session_key@);
    assert(entry@.key_encs.len() == recipient_pks@.len());
    recipient_finds_the_transaction(tx@, session_key@, secret@, entry@, i);
}

/// A scan gives what the first wrapped key gives that opens the entry: a key opens it where
/// the decrypted bytes are more than the tag, begin with the tag and go on with a transaction.
/// Where no key does, it gives nothing.
pub proof fn scan_gives_what_the_first_fitting_key_opens(
    secret: &[u8; 32],
    entry: &BoardEntry,
    r: Option<Transaction>,
)
    requires
        call_ensures(scan_entry, (secret, entry), r),
    ensures
        ({
            let key = |i: int|
                combined_keys(
                    sha256_digest(
                        x25519_shared(secret@, entry.ek_pk@) + seq![
                            67u8,
                            76u8,
                            79u8,
                            65u8,
                            75u8,
                            68u8,
                            72u8,
                            49u8,
                        ],
                    ),
                    entry.key_encs@[i]@,
                );
            let plain = |i: int| under_keystream(key(i), entry.ciphertext@);
            let opens = |i: int|
                entry.ciphertext@.len() > 8 && plain(i).take(8) == seq![
                    67u8,
                    76u8,
                    79u8,
                    65u8,
                    75u8,
                    84u8,
                    88u8,
                    49u8,
                ] && codec::transaction_decoded(plain(i).skip(8)) is Some;
            &&& r is Some <==> exists|i: int|
                0 <= i < entry.key_encs@.len() && #[trigger] opens(i)
            &&& r matches Some(tx) ==> exists|i: int|
                {
                    &&& 0 <= i < entry.key_encs@.len()
                    &&& #[trigger] opens(i)
                    &&& forall|j: int| 0 <= j < i ==> !#[trigger] opens(j)
                    &&& codec::transaction_decoded(plain(i).skip(8)) == Some(tx@)
                }
        }),
{
    let view = entry@;
    assert(DH_SALT@ =~= seq![67u8, 76u8, 79u8, 65u8, 75u8, 68u8, 72u8, 49u8]);
    assert(MAGIC_TAG@ =~= seq![67u8, 76u8, 79u8, 65u8, 75u8, 84u8, 88u8, 49u8]);
    let key = |i: int|
        combined_keys(
            sha256_digest(
                x25519_shared(secret@, entry.ek_pk@) + seq![
                    67u8,
                    76u8,
                    79u8,
                    65u8,
                    75u8,
                    68u8,
                    72u8,
                    49u8,
                ],
            ),
            entry.key_encs@[i]@,
        );
    let plain = |i: int| under_keystream(key(i), entry.ciphertext@);
    let opens = |i: int|
        entry.ciphertext@.len() > 8 && plain(i).take(8) == seq![
            67u8,
            76u8,
            79u8,
            65u8,
            75u8,
            84u8,
            88u8,
            49u8,
        ] && codec::transaction_decoded(plain(i).skip(8)) is Some;
    assert forall|i: int| 0 <= i < view.key_encs.len() implies #[trigger] opens(i)
        == opened_at(secret@, view, i) is Some by {
        assert(view.key_encs[i] == entry.key_encs@[i]@);
        assert(key(i) == unwrapped_key(secret@, view, i));
    }
    assert(view.key_encs.len() == entry.key_encs@.len());
    let i = lemma_scan_is_first(secret@, view, 0);
    if i < view.key_encs.len() {
        assert(view.key_encs[i] == entry.key_encs@[i]@);
        assert(key(i) == unwrapped_key(secret@, view, i));
        assert(opens(i));
        assert forall|j: int| 0 <= j < i implies !#[trigger] opens(j) by {
            assert(opened_at(secret@, view, j) is None);
        }
    } else {
        assert forall|j: int| 0 <= j < entry.key_encs@.len() implies !#[trigger] opens(j) by {
            assert(opened_at(secret@, view, j) is None);
        }
    }
}

/// What the wrapped key at `i` opens.
spec fn opened_at(secret: Seq<u8>, entry: board::EntryView, i: int) -> Option<
    coin::TransactionView,
> {
    decrypted_transaction(unwrapped_key(secret, entry, i), entry.ciphertext)
}

/// A scan stops at the first key that opens the entry.
proof fn lemma_scan_is_first(secret: Seq<u8>, entry: board::EntryView, from: int) -> (i: int)
    requires
        0 <= from <= entry.key_encs.len(),
    ensures
        from <= i <= entry.key_encs.len(),
        forall|j: int| from <= j < i ==> #[trigger] opened_at(secret, entry, j) is None,
        i < entry.key_encs.len() ==> opened_at(secret, entry, i) is Some,
        scanned_from(secret, entry, from) == if i < entry.key_encs.len() {
            opened_at(secret, entry, i)
        } else {
            None
        },
    decreases entry.key_encs.len() - from,
{
    if from >= entry.key_encs.len() || opened_at(secret, entry, from) is Some {
        from
    } else {
        lemma_scan_is_first(secret, entry, from + 1)
    }
}

/// The session key that is recovered is the first unwrapped one under which the ciphertext is
/// more than the tag and begins with it; where there is none, nothing is recovered. A key is
/// unwrapped by combining it with the digest of the secret that is shared with the entry.
pub proof fn recovered_key_is_the_first_with_the_tag(
    secret: &[u8; 32],
    entry: &BoardEntry,
    r: Option<[u8; 32]>,
)
    requires
        call_ensures(recover_session_key, (secret, entry), r),
    ensures
        ({
            let shared = sha256_digest(
                x25519_shared(secret@, entry.ek_pk@) + seq![
                    67u8,
                    76u8,
                    79u8,
                    65u8,
                    75u8,
                    68u8,
                    72u8,
                    49u8,
                ],
            );
            let fits = |key: Seq<u8>|
                entry.ciphertext@.len() > 8 && under_keystream(key, entry.ciphertext@).take(8)
                    == seq![67u8, 76u8, 79u8, 65u8, 75u8, 84u8, 88u8, 49u8];
            &&& r is None ==> forall|i: int|
                0 <= i < entry.key_encs@.len() ==> !fits(
                    combined_keys(shared, (#[trigger] entry.key_encs@[i])@),
                )
            &&& r matches Some(key) ==> fits(key@) && exists|i: int|
                {
                    &&& 0 <= i < entry.key_encs@.len()
                    &&& key@ == combined_keys(shared, (#[trigger] entry.key_encs@[i])@)
                    &&& forall|j: int|
                        0 <= j < i ==> !fits(
                            combined_keys(shared, (#[trigger] entry.key_encs@[j])@),
                        )
                }
        }),
{
    assert(DH_SALT@ =~= seq![67u8, 76u8, 79u8, 65u8, 75u8, 68u8, 72u8, 49u8]);
    assert(MAGIC_TAG@ =~= seq![67u8, 76u8, 79u8, 65u8, 75u8, 84u8, 88u8, 49u8]);
    let view = entry@;
    let shared = wrapping_key_of(x25519_shared(secret@, view.ek_pk));
    assert(view.key_encs.len() == entry.key_encs@.len());
    lemma_recovery_is_first(secret@, view, 0);
    assert forall|i: int| 0 <= i < view.key_encs.len() implies #[trigger] unwrapped_key(
        secret@,
        view,
        i,
    ) == combined_keys(shared, entry.key_encs@[i]@) by {
        assert(view.key_encs[i] == entry.key_encs@[i]@);
    }
    if let Some(key) = r {
        let i = choose|i: int|
            {
                &&& 0 <= i < view.key_encs.len()
                &&& key@ == #[trigger] unwrapped_key(secret@, view, i)
                &&& forall|j: int|
                    0 <= j < i ==> !tag_matches(
                        #[trigger] unwrapped_key(secret@, view, j),
                        view.ciphertext,
                    )
            };
        assert(key@ == combined_keys(shared, entry.key_encs@[i]@));
        assert forall|j: int| 0 <= j < i implies !tag_matches(
            combined_keys(shared, (#[trigger] entry.key_encs@[j])@),
            view.ciphertext,
        ) by {
            assert(!tag_matches(unwrapped_key(secret@, view, j), view.ciphertext));
        }
    } else {
        assert forall|i: int| 0 <= i < entry.key_encs@.len() implies !tag_matches(
            combined_keys(shared, (#[trigger] entry.key_encs@[i])@),
            view.ciphertext,
        ) by {
            assert(!tag_matches(unwrapped_key(secret@, view, i), view.ciphertext));
        }
    }
}

proof fn lemma_recovery_is_first(secret: Seq<u8>, entry: board::EntryView, from: int)
    requires
        0 <= from,
    ensures
        recovered_from(secret, entry, from) is None ==> forall|i: int|
            from <= i < entry.key_encs.len() ==> !tag_matches(
                #[trigger] unwrapped_key(secret, entry, i),
                entry.ciphertext,
            ),
        recovered_from(secret, entry, from) matches Some(key) ==> tag_matches(
            key,
            entry.ciphertext,
        ) && exists|i: int|
            {
                &&& from <= i < entry.key_encs.len()
                &&& key == #[trigger] unwrapped_key(secret, entry, i)
                &&& forall|j: int|
                    from <= j < i ==> !tag_matches(
                        #[trigger] unwrapped_key(secret, entry, j),
                        entry.ciphertext,
                    )
            },
    decreases entry.key_encs.len() - from,
{
    if from < entry.key_encs.len() && !tag_matches(
        unwrapped_key(secret, entry, from),
        entry.ciphertext,
    ) {
        lemma_recovery_is_first(secret, entry, from + 1);
        if let Some(key) = recovered_from(secret, entry, from) {
            let i = choose|i: int|
                {
                    &&& from + 1 <= i < entry.key_encs.len()
                    &&& key == #[trigger] unwrapped_key(secret, entry, i)
                    &&& forall|j: int|
                        from + 1 <= j < i ==> !tag_matches(
                            #[trigger] unwrapped_key(secret, entry, j),
                            entry.ciphertext,
                        )
                };
            assert(key == unwrapped_key(secret, entry, i));
        }
    } else if from < entry.key_encs.len() {
        assert(recovered_from(secret, entry, from) == Some(unwrapped_key(secret, entry, from)));
    }
}

/// Data is combined byte by byte with a keystream in which every block of 32 bytes is the
/// digest of the key and the block's own number: no two blocks of a message share one.
pub proof fn each_block_has_its_own_keystream(
    key: &[u8; 32],
    data: &[u8],
    out: Vec<u8>,
    i: int,
    counter: Seq<u8>,
)
    requires
        call_ensures(xor_with_keystream, (key, data), out),
        0 <= i < data@.len(),
        counter.len() == 8,
        field::bytes_value(counter) == i / 32,
    ensures
        out@.len() == data@.len(),
        out@[i] == data@[i] ^ sha256_digest(key@ + counter)[i % 32],
{
    codec::digits_of_the_value_are_the_bytes(counter);
}

/// Combining with the keystream of the same key twice gives the data back.
pub proof fn decrypting_undoes_encrypting(
    key: &[u8; 32],
    data: &[u8],
    out: Vec<u8>,
    between: &[u8],
    back: Vec<u8>,
)
    requires
        call_ensures(xor_with_keystream, (key, data), out),
        between@ == out@,
        call_ensures(xor_with_keystream, (key, between), back),
    ensures
        back@ == data@,
{
    keystream_is_its_own_inverse(key@, data@);
}

/// The ciphertext of an entry is, under the session key's keystream, the tag and the encoded
/// transaction, and nothing else.
pub proof fn ciphertext_is_the_tagged_transaction(
    tx: &Transaction,
    sender_sk: &OwnerScalar,
    recipient_pks: &[[u8; 32]],
    session_key: [u8; 32],
    entry: BoardEntry,
    encoded: Vec<u8>,
    ciphertext: &[u8],
    plain: Vec<u8>,
)
    requires
        tx.input_commitments@.len() > 0,
        call_ensures(encrypt_tx, (tx, sender_sk, recipient_pks, session_key), entry),
        call_ensures(encode_transaction, (tx,), encoded),
        ciphertext@ == entry.ciphertext@,
        call_ensures(xor_with_keystream, (&session_key, ciphertext), plain),
    ensures
        plain@ == seq![67u8, 76u8, 79u8, 65u8, 75u8, 84u8, 88u8, 49u8] + encoded@,
{
    assert(MAGIC_TAG@ =~= seq![67u8, 76u8, 79u8, 65u8, 75u8, 84u8, 88u8, 49u8]);
    assert(entry@.ciphertext == entry.ciphertext@);
    keystream_is_its_own_inverse(session_key@, MAGIC_TAG@ + encoded@);
}

/// The keys of an envelope are digests: of the session key and a salt for the ephemeral secret,
/// of the shared secret and a salt for the wrapping key, and of the session key, the note's
/// index in eight bytes and a salt for the key of a note.
pub proof fn keys_are_salted_digests(
    session_key: &[u8; 32],
    ephemeral: [u8; 32],
    wrapping: [u8; 32],
    index: usize,
    note: [u8; 32],
    counter: Seq<u8>,
)
    requires
        call_ensures(ek_secret, (session_key,), ephemeral),
        call_ensures(wrapping_key, (session_key,), wrapping),
        call_ensures(note_key, (session_key, index), note),
        counter.len() == 8,
        field::bytes_value(counter) == index,
    ensures
        ephemeral@ == sha256_digest(
            session_key@ + seq![67u8, 76u8, 79u8, 65u8, 75u8, 69u8, 75u8, 49u8],
        ),
        wrapping@ == sha256_digest(
            session_key@ + seq![67u8, 76u8, 79u8, 65u8, 75u8, 68u8, 72u8, 49u8],
        ),
        note@ == sha256_digest(
            session_key@ + counter + seq![67u8, 76u8, 79u8, 65u8, 75u8, 78u8, 84u8, 50u8],
        ),
{
    codec::digits_of_the_value_are_the_bytes(counter);
    assert(EK_SALT@ =~= seq![67u8, 76u8, 79u8, 65u8, 75u8, 69u8, 75u8, 49u8]);
    assert(DH_SALT@ =~= seq![67u8, 76u8, 79u8, 65u8, 75u8, 68u8, 72u8, 49u8]);
    assert(NOTE_SALT@ =~= seq![67u8, 76u8, 79u8, 65u8, 75u8, 78u8, 84u8, 50u8]);
}

/// A coin with an owner on the curve comes back from its note with the same session key and
/// index.
pub proof fn coin_comes_back_from_its_note(
    session_key: &[u8; 32],
    index: usize,
    c: &Coin,
    note: Vec<u8>,
    bytes: &[u8],
    r: Option<Coin>,
)
    requires
        call_ensures(build_note_enc, (session_key, index, c), note),
        bytes@ == note@,
        call_ensures(decrypt_note, (session_key, index, bytes), r),
        keys::on_curve(c.owner_pk@),
    ensures
        r matches Some(back) && back@ == c@,
{
}

/// A note is decrypted with the key for its index: it gives a coin if and only if what comes
/// out is more than the tag, begins with it, and goes on with a coin, which is then given.
pub proof fn note_is_opened_with_its_own_key(
    session_key: &[u8; 32],
    index: usize,
    bytes: &[u8],
    r: Option<Coin>,
    key: [u8; 32],
    plain: Vec<u8>,
    body: &[u8],
    decoded: Option<Coin>,
)
    requires
        call_ensures(decrypt_note, (session_key, index, bytes), r),
        call_ensures(note_key, (session_key, index), key),
        call_ensures(xor_with_keystream, (&key, bytes), plain),
        body@ == plain@.skip(8),
        call_ensures(decode_coin, (body,), decoded),
    ensures
        r is Some <==> bytes@.len() > 8 && plain@.take(8) == seq![
            67u8,
            76u8,
            79u8,
            65u8,
            75u8,
            78u8,
            84u8,
            49u8,
        ] && decoded is Some,
        r is Some ==> r->0@ == decoded->0@,
{
    assert(NOTE_MAGIC@ =~= seq![67u8, 76u8, 79u8, 65u8, 75u8, 78u8, 84u8, 49u8]);
}

/// Two keys are combined bit by bit, all 32 bytes of them.
pub proof fn keys_are_combined_byte_by_byte(a: Seq<u8>, b: Seq<u8>, i: int)
    requires
        0 <= i < 32,
    ensures
        combined_keys(a, b).len() == 32,
        combined_keys(a, b)[i] == a[i] ^ b[i],
{
}

/// Each recipient's wrapped key is the session key, combined with the digest of the secret that
/// the ephemeral secret shares with the recipient.
pub proof fn session_key_is_wrapped_for_each_recipient(
    tx: &Transaction,
    sender_sk: &OwnerScalar,
    recipient_pks: &[[u8; 32]],
    session_key: [u8; 32],
    entry: BoardEntry,
    ephemeral: [u8; 32],
    i: int,
    k: int,
)
    requires
        tx.input_commitments@.len() > 0,
        call_ensures(encrypt_tx, (tx, sender_sk, recipient_pks, session_key), entry),
        call_ensures(ek_secret, (&session_key,), ephemeral),
        0 <= i < recipient_pks@.len(),
        0 <= k < 32,
    ensures
        entry.key_encs@[i]@[k] == session_key@[k] ^ sha256_digest(
            x25519_shared(ephemeral@, recipient_pks@[i]@) + seq![
                67u8,
                76u8,
                79u8,
                65u8,
                75u8,
                68u8,
                72u8,
                49u8,
            ],
        )[k],
{
    assert(DH_SALT@ =~= seq![67u8, 76u8, 79u8, 65u8, 75u8, 68u8, 72u8, 49u8]);
    let pks = board::key_seqs(recipient_pks@);
    assert(entry@.key_encs.len() == pks.len() && pks.len() == recipient_pks@.len());
    assert(entry@.key_encs.len() == entry.key_encs@.len());
    assert(entry@.key_encs[i] == entry.key_encs@[i]@);
    assert(pks[i] == recipient_pks@[i]@);
    let wk = wrapping_key_of(x25519_shared(ephemeral@, recipient_pks@[i]@));
    assert(entry@.key_encs[i] == combined_keys(wk, session_key@));
    let x = wk[k];
    let y = session_key@[k];
    assert(x ^ y == y ^ x) by (bit_vector);
}

/// Encrypting a transaction again under the same session key, after a spend proof was attached
/// or its notes were changed, keeps everything of the entry but the ciphertext.
pub proof fn encrypting_again_keeps_all_but_the_ciphertext(
    tx: &Transaction,
    proven: &Transaction,
    sender_sk: &OwnerScalar,
    recipient_pks: &[[u8; 32]],
    session_key: [u8; 32],
    before: BoardEntry,
    after: BoardEntry,
    i: int,
)
    requires
        tx.input_commitments@.len() > 0,
        proven.input_commitments@ == tx.input_commitments@,
        proven.output_commitments@ == tx.output_commitments@,
        call_ensures(encrypt_tx, (tx, sender_sk, recipient_pks, session_key), before),
        call_ensures(encrypt_tx, (proven, sender_sk, recipient_pks, session_key), after),
    ensures
        after.ek_pk@ == before.ek_pk@,
        after.key_encs@.len() == before.key_encs@.len(),
        0 <= i < before.key_encs@.len() ==> after.key_encs@[i]@ == before.key_encs@[i]@,
        after.nullifier@ == before.nullifier@,
        field::fr_values(after.output_commitments@) == field::fr_values(before.output_commitments@),
{
    assert(before@.key_encs == after@.key_encs);
    assert(before@.key_encs.len() == before.key_encs@.len());
    assert(after@.key_encs.len() == after.key_encs@.len());
    if 0 <= i < before.key_encs@.len() {
        assert(before@.key_encs[i] == before.key_encs@[i]@);
        assert(after@.key_encs[i] == after.key_encs@[i]@);
    }
}

} // verus!
