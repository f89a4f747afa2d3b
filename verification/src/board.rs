//! The public board: its entries and the tree over them.
//!
//! Let `path` be the inclusion path of slot `k` in the tree over the entries
//! `0..=k`. Walking up from the zero element along it gives the root before entry
//! `k` was posted, and walking up from the leaf of entry `k` gives the root after.
//! Only the leaf differs between the two, so a proof can check consistency with
//! the prior root and compute the new one in a single pass.

use vstd::prelude::*;
use vstd::arithmetic::power2::pow2;
use crate::field;
use crate::field::Fr;
use crate::merkle;
use crate::merkle::{empty_root, merkle_path_for_index, root_from_path};
use crate::poseidon;
use crate::poseidon::Hasher;

verus! {

/// A board entry: a transaction encrypted with a session key, that key wrapped
/// once for each recipient, the ephemeral X25519 public key, and what the
/// transaction publishes in the clear.
///
/// The output commitments are public, not only inside the ciphertext, so that a
/// receipt can show that it holds one of them without decrypting anything. A
/// hiding commitment leaks nothing about value, randomness or owner.
#[derive(Clone, Debug, PartialEq, Eq)]
pub struct BoardEntry {
    /// The tagged, encoded transaction under the session key's keystream.
    pub ciphertext: Vec<u8>,
    /// The ephemeral X25519 public key.
    pub ek_pk: [u8; 32],
    /// The session key, wrapped for each recipient.
    pub key_encs: Vec<[u8; 32]>,
    /// The nullifier of the coin that the transaction spends.
    pub nullifier: Fr,
    /// The commitments that the transaction creates.
    pub output_commitments: Vec<Fr>,
}

/// What a [`BoardEntry`] holds.
#[verifier::ext_equal]
pub struct EntryView {
    pub ciphertext: Seq<u8>,
    pub ek_pk: Seq<u8>,
    pub key_encs: Seq<Seq<u8>>,
    pub nullifier: nat,
    pub output_commitments: Seq<nat>,
}

/// The contents of wrapped keys.
pub open spec fn key_seqs(v: Seq<[u8; 32]>) -> Seq<Seq<u8>> {
    v.map_values(|k: [u8; 32]| k@)
}

impl View for BoardEntry {
    type V = EntryView;

    open spec fn view(&self) -> EntryView {
        EntryView {
            ciphertext: self.ciphertext@,
            ek_pk: self.ek_pk@,
            key_encs: key_seqs(self.key_encs@),
            nullifier: self.nullifier@,
            output_commitments: field::fr_values(self.output_commitments@),
        }
    }
}

/// The contents of board entries.
pub open spec fn entry_views(entries: Seq<BoardEntry>) -> Seq<EntryView> {
    entries.map_values(|e: BoardEntry| e@)
}

/// The hash of an entry's parts that no circuit looks into.
pub open spec fn ciphertext_commitment(entry: EntryView) -> nat {
    poseidon::poseidon(
        seq![
            poseidon::poseidon(poseidon::bytes_elements(entry.ciphertext)),
            poseidon::poseidon(poseidon::bytes_elements(entry.ek_pk)),
            poseidon::poseidon(poseidon::bytes_elements(entry.key_encs.flatten())),
        ],
    )
}

/// A leaf of the board's tree from its hashed parts.
pub open spec fn leaf_from_commitment(
    slot: nat,
    nullifier: nat,
    output_commitments: Seq<nat>,
    commitment: nat,
) -> nat {
    poseidon::poseidon(seq![slot, commitment, nullifier, poseidon::poseidon(output_commitments)])
}

/// The leaf of an entry. It holds the slot, so entries cannot be permuted under
/// the same root.
pub open spec fn entry_leaf(slot: nat, entry: EntryView) -> nat {
    leaf_from_commitment(
        slot,
        entry.nullifier,
        entry.output_commitments,
        ciphertext_commitment(entry),
    )
}

/// The leaves of a board.
pub open spec fn board_leaves(entries: Seq<EntryView>) -> Seq<nat> {
    Seq::new(entries.len(), |i: int| entry_leaf(i as nat, entries[i]))
}

/// The root of a board. From 2 to the power 32 entries on, the tree is full and
/// the walk up from the last entry ends beyond the node at position zero.
pub open spec fn board_root(entries: Seq<EntryView>) -> nat {
    if entries.len() == 0 {
        merkle::tree_root(Seq::empty())
    } else {
        merkle::node(
            board_leaves(entries),
            merkle::TREE_DEPTH as nat,
            merkle::ancestor((entries.len() - 1) as nat, merkle::TREE_DEPTH as nat),
        )
    }
}

/// Join 32-byte keys.
fn joined_keys(keys: &Vec<[u8; 32]>) -> (r: Vec<u8>)
    ensures
        r@ == key_seqs(keys@).flatten(),
{
    let mut out: Vec<u8> = Vec::new();
    let mut i: usize = 0;
    let ghost all = key_seqs(keys@);
    assert(all.take(0) =~= Seq::empty());
    while i < keys.len()
        invariant
            i <= keys@.len(),
            all == key_seqs(keys@),
            out@ == all.take(i as int).flatten(),
        decreases keys@.len() - i,
    {
        let ghost before = out@;
        let mut j: usize = 0;
        while j < 32
            invariant
                j <= 32,
                i < keys@.len(),
                out@ == before + keys@[i as int]@.take(j as int),
            decreases 32 - j,
        {
            out.push(keys[i][j]);
            j += 1;
            assert(out@ =~= before + keys@[i as int]@.take(j as int));
        }
        proof {
            assert(keys@[i as int]@.take(32) =~= all[i as int]);
            assert(all.take(i + 1) =~= all.take(i as int).push(all[i as int]));
            all.take(i as int).lemma_flatten_push(all[i as int]);
        }
        i += 1;
    }
    assert(all.take(i as int) =~= all);
    out
}

/// Fold an entry's parts that are of variable length and play no role in any
/// circuit (the ciphertext, the ephemeral key and the wrapped keys) into a single
/// opaque element. It binds them into the leaf.
pub fn entry_ciphertext_commitment(entry: &BoardEntry) -> (r: Fr)
    ensures
        r@ == ciphertext_commitment(entry@),
{
    fold_entry(&Hasher::new(), entry)
}

fn fold_entry(hasher: &Hasher, entry: &BoardEntry) -> (r: Fr)
    ensures
        r@ == ciphertext_commitment(entry@),
{
    let keys = joined_keys(&entry.key_encs);
    hasher.hash3(
        hasher.hash_bytes(entry.ciphertext.as_slice()),
        hasher.hash_bytes(&entry.ek_pk),
        hasher.hash_bytes(keys.as_slice()),
    )
}

/// The leaf of an entry at a slot.
pub fn merkle_leaf(slot: usize, entry: &BoardEntry) -> (r: Fr)
    ensures
        r@ == entry_leaf(slot as nat, entry@),
{
    leaf_of(&Hasher::new(), slot, entry)
}

fn leaf_of(hasher: &Hasher, slot: usize, entry: &BoardEntry) -> (r: Fr)
    ensures
        r@ == entry_leaf(slot as nat, entry@),
{
    let commitment = fold_entry(hasher, entry);
    hasher.hash4(
        Fr::from(slot as u64),
        commitment,
        entry.nullifier,
        hasher.hash(entry.output_commitments.as_slice()),
    )
}

/// The fixed-size core of [`merkle_leaf`]: every input is an element.
pub fn merkle_leaf_from_commitment(
    slot: usize,
    nullifier: Fr,
    output_commitments: &[Fr],
    commitment: Fr,
) -> (r: Fr)
    ensures
        r@ == leaf_from_commitment(
            slot as nat,
            nullifier@,
            field::fr_values(output_commitments@),
            commitment@,
        ),
{
    let hasher = Hasher::new();
    hasher.hash4(Fr::from(slot as u64), commitment, nullifier, hasher.hash(output_commitments))
}

/// The leaves of all entries, in order.
fn leaves_of(entries: &[BoardEntry]) -> (r: Vec<Fr>)
    ensures
        field::fr_values(r@) == board_leaves(entry_views(entries@)),
{
    let hasher = Hasher::new();
    let mut out: Vec<Fr> = Vec::new();
    let mut i: usize = 0;
    while i < entries.len()
        invariant
            i <= entries@.len(),
            out@.len() == i,
            forall|j: int|
                0 <= j < i ==> (#[trigger] out@[j])@ == entry_leaf(j as nat, entries@[j]@),
        decreases entries@.len() - i,
    {
        out.push(leaf_of(&hasher, i, &entries[i]));
        i += 1;
    }
    assert(field::fr_values(out@) =~= board_leaves(entry_views(entries@)));
    out
}

/// The root of the tree that holds `entries` in its first slots and zero in all
/// others.
pub fn merkle_root_of(entries: &[BoardEntry]) -> (r: Fr)
    ensures
        r@ == board_root(entry_views(entries@)),
{
    if entries.len() == 0 {
        return empty_root();
    }
    let last: usize = entries.len() - 1;
    let path = append_proof_for(entries);
    let hasher = Hasher::new();
    let leaf = leaf_of(&hasher, last, &entries[last]);
    proof {
        let leaves = board_leaves(entry_views(entries@));
        assert(leaves[last as int] == leaf@);
        merkle::lemma_path_leads_to_root(leaves, 0, last as nat);
    }
    root_from_path(&hasher, leaf, last as u64, path.as_slice())
}

/// Inclusion path of the last entry in the tree over `entries`.
pub fn append_proof_for(entries: &[BoardEntry]) -> (path: Vec<Fr>)
    requires
        entries@.len() > 0,
    ensures
        field::fr_values(path@) == merkle::tree_path(
            board_leaves(entry_views(entries@)),
            (entries@.len() - 1) as nat,
        ),
{
    let slot: usize = entries.len() - 1;
    let hashes = leaves_of(entries);
    merkle_path_for_index(hashes.as_slice(), slot)
}

/// Path of the next, as yet empty slot after `entries`: it shows the state of the
/// board just before a transaction is posted.
pub fn append_path_for_next(entries: &[BoardEntry]) -> (path: Vec<Fr>)
    ensures
        field::fr_values(path@) == merkle::tree_path(
            board_leaves(entry_views(entries@)),
            entries@.len(),
        ),
{
    let hashes = leaves_of(entries);
    merkle_path_for_index(hashes.as_slice(), entries.len())
}

/// Whether `entry` is the content of `slot` in a tree with the given root.
pub fn merkle_verify(root: Fr, slot: usize, entry: &BoardEntry, proof_path: &[Fr]) -> (r: bool)
    ensures
        r == opens_to(root@, slot as nat, entry@, field::fr_values(proof_path@)),
{
    let hasher = Hasher::new();
    root_from_path(&hasher, leaf_of(&hasher, slot, entry), slot as u64, proof_path) == root
}

/// The leaf of `entry` at `slot` reaches `root` along `path`.
pub open spec fn opens_to(root: nat, slot: nat, entry: EntryView, path: Seq<nat>) -> bool {
    merkle::path_root(entry_leaf(slot, entry), slot, path) == root
}

/// For a board that fits the tree, its root is the tree's root.
pub proof fn board_root_is_tree_root(entries: Seq<EntryView>)
    requires
        entries.len() <= pow2(32),
    ensures
        board_root(entries) == merkle::tree_root(board_leaves(entries)),
{
    if entries.len() == 0 {
        assert(board_leaves(entries) =~= Seq::empty());
    } else {
        merkle::lemma_ancestor_zero((entries.len() - 1) as nat, 32);
    }
}

/// The append path of the next slot shows both the board before an entry is
/// posted there and the board after: from the zero element it leads to the old
/// root, and from the entry's leaf to the new root.
pub proof fn append_path_shows_old_and_new_root(entries: Seq<EntryView>, entry: EntryView)
    requires
        entries.len() < pow2(32),
    ensures
        merkle::path_root(0, entries.len(), merkle::tree_path(board_leaves(entries), entries.len()))
            == board_root(entries),
        opens_to(
            board_root(entries.push(entry)),
            entries.len(),
            entry,
            merkle::tree_path(board_leaves(entries), entries.len()),
        ),
{
    let slot = entries.len();
    let old_leaves = board_leaves(entries);
    let new_leaves = board_leaves(entries.push(entry));
    assert(merkle::agree_except(old_leaves, new_leaves, slot)) by {
        assert forall|j: nat| j != slot implies #[trigger] merkle::leaf_at(old_leaves, j)
            == merkle::leaf_at(new_leaves, j) by {}
    }
    assert(merkle::agree_except(old_leaves, old_leaves, slot));
    merkle::lemma_path_gives_updated_root(old_leaves, old_leaves, slot);
    merkle::lemma_path_gives_updated_root(old_leaves, new_leaves, slot);
    board_root_is_tree_root(entries);
    board_root_is_tree_root(entries.push(entry));
}

/// The path of the next slot is the inclusion path of the entry that is posted there.
pub proof fn next_path_is_append_proof(entries: Seq<EntryView>, entry: EntryView)
    ensures
        merkle::tree_path(board_leaves(entries), entries.len()) == merkle::tree_path(
            board_leaves(entries.push(entry)),
            entries.len(),
        ),
{
    let old_leaves = board_leaves(entries);
    let new_leaves = board_leaves(entries.push(entry));
    assert(merkle::agree_except(old_leaves, new_leaves, entries.len())) by {
        assert forall|j: nat| j != entries.len() implies #[trigger] merkle::leaf_at(old_leaves, j)
            == merkle::leaf_at(new_leaves, j) by {}
    }
    merkle::lemma_path_agrees(old_leaves, new_leaves, entries.len(), 0);
}

/// Every entry of a board opens to the board's root along its own path.
pub proof fn posted_entry_opens(entries: Seq<EntryView>, slot: nat)
    requires
        slot < entries.len() <= pow2(32),
    ensures
        opens_to(
            board_root(entries),
            slot,
            entries[slot as int],
            merkle::tree_path(board_leaves(entries), slot),
        ),
{
    merkle::lemma_path_leads_to_root(board_leaves(entries), 0, slot);
    merkle::lemma_ancestor_zero(slot, 32);
    board_root_is_tree_root(entries);
}

/// Two entries have parts of the same lengths: as many bytes of ciphertext, as many wrapped keys
/// and as many commitments, and all keys have 32 bytes.
pub open spec fn same_lengths(a: EntryView, b: EntryView) -> bool {
    &&& a.ciphertext.len() == b.ciphertext.len()
    &&& a.ek_pk.len() == b.ek_pk.len()
    &&& a.key_encs.len() == b.key_encs.len()
    &&& forall|i: int|
        0 <= i < a.key_encs.len() ==> (#[trigger] a.key_encs[i]).len() == 32
            && b.key_encs[i].len() == 32
    &&& a.output_commitments.len() == b.output_commitments.len()
}

/// Keys of 32 bytes are told apart when they are joined.
proof fn lemma_joined_keys_determine_keys(a: Seq<Seq<u8>>, b: Seq<Seq<u8>>)
    requires
        a.len() == b.len(),
        forall|i: int|
            0 <= i < a.len() ==> (#[trigger] a[i]).len() == 32 && b[i].len() == 32,
        a.flatten() == b.flatten(),
    ensures
        a == b,
    decreases a.len(),
{
    if a.len() > 0 {
        let x = a.drop_first();
        let y = b.drop_first();
        assert(a[0].len() == 32 && b[0].len() == 32);
        assert(a.flatten() == a[0] + x.flatten());
        assert(b.flatten() == b[0] + y.flatten());
        assert((a[0] + x.flatten()).take(32) =~= a[0]);
        assert((b[0] + y.flatten()).take(32) =~= b[0]);
        assert((a[0] + x.flatten()).skip(32) =~= x.flatten());
        assert((b[0] + y.flatten()).skip(32) =~= y.flatten());
        assert forall|i: int| 0 <= i < x.len() implies (#[trigger] x[i]).len() == 32
            && y[i].len() == 32 by {
            assert(a[i + 1].len() == 32 && b[i + 1].len() == 32);
        }
        lemma_joined_keys_determine_keys(x, y);
        assert forall|i: int| 0 <= i < a.len() implies a[i] == b[i] by {
            if i > 0 {
                assert(a[i] == x[i - 1] && b[i] == y[i - 1]);
            }
        }
    }
    assert(a =~= b);
}

/// A leaf binds its slot and every part of its entry: two leaves that are equal are of the same
/// slot, nullifier, commitments, ciphertext, ephemeral key and wrapped keys (where these are of
/// the same lengths), unless there is a collision of the hash.
pub proof fn leaf_binds_slot_and_entry(
    slot: nat,
    first: EntryView,
    other_slot: nat,
    second: EntryView,
)
    requires
        entry_leaf(slot, first) == entry_leaf(other_slot, second),
        !merkle::collision_exists(),
    ensures
        slot == other_slot,
        first.nullifier == second.nullifier,
        first.output_commitments.len() == second.output_commitments.len()
            ==> first.output_commitments == second.output_commitments,
        ciphertext_commitment(first) == ciphertext_commitment(second),
        first.ciphertext.len() == second.ciphertext.len() ==> first.ciphertext
            == second.ciphertext,
        first.ek_pk.len() == second.ek_pk.len() ==> first.ek_pk == second.ek_pk,
        first.key_encs.len() == second.key_encs.len() && (forall|i: int|
            0 <= i < first.key_encs.len() ==> (#[trigger] first.key_encs[i]).len() == 32
                && second.key_encs[i].len() == 32) ==> first.key_encs == second.key_encs,
        same_lengths(first, second) ==> first == second,
{
    let a = seq![
        slot,
        ciphertext_commitment(first),
        first.nullifier,
        poseidon::poseidon(first.output_commitments),
    ];
    let b = seq![
        other_slot,
        ciphertext_commitment(second),
        second.nullifier,
        poseidon::poseidon(second.output_commitments),
    ];
    assert(!merkle::collision(a, b));
    assert(a[0] == b[0] && a[1] == b[1] && a[2] == b[2] && a[3] == b[3]);
    assert(!merkle::collision(first.output_commitments, second.output_commitments));
    let hashed = |bytes: Seq<u8>| poseidon::poseidon(poseidon::bytes_elements(bytes));
    let x = seq![hashed(first.ciphertext), hashed(first.ek_pk), hashed(first.key_encs.flatten())];
    let y = seq![
        hashed(second.ciphertext),
        hashed(second.ek_pk),
        hashed(second.key_encs.flatten()),
    ];
    assert(!merkle::collision(x, y));
    assert(x[0] == y[0] && x[1] == y[1] && x[2] == y[2]);
    if first.ciphertext.len() == second.ciphertext.len() {
        merkle::lemma_hash_binds_bytes(first.ciphertext, second.ciphertext);
    }
    if first.ek_pk.len() == second.ek_pk.len() {
        merkle::lemma_hash_binds_bytes(first.ek_pk, second.ek_pk);
    }
    if first.key_encs.len() == second.key_encs.len() && (forall|i: int|
        0 <= i < first.key_encs.len() ==> (#[trigger] first.key_encs[i]).len() == 32
            && second.key_encs[i].len() == 32) {
        assert forall|i: int| 0 <= i < second.key_encs.len() implies (#[trigger]
        second.key_encs[i]).len() == 32 by {
            assert(first.key_encs[i].len() == 32);
        }
        lemma_joined_len(first.key_encs);
        lemma_joined_len(second.key_encs);
        merkle::lemma_hash_binds_bytes(first.key_encs.flatten(), second.key_encs.flatten());
        lemma_joined_keys_determine_keys(first.key_encs, second.key_encs);
    }
}

/// Joined keys of 32 bytes have 32 bytes each.
proof fn lemma_joined_len(keys: Seq<Seq<u8>>)
    requires
        forall|i: int| 0 <= i < keys.len() ==> (#[trigger] keys[i]).len() == 32,
    ensures
        keys.flatten().len() == 32 * keys.len(),
    decreases keys.len(),
{
    if keys.len() > 0 {
        let rest = keys.drop_first();
        assert forall|i: int| 0 <= i < rest.len() implies (#[trigger] rest[i]).len() == 32 by {
            assert(keys[i + 1].len() == 32);
        }
        lemma_joined_len(rest);
        assert(keys[0].len() == 32);
        assert(keys.flatten() == keys[0] + rest.flatten());
    }
}

/// A root binds what stands at each slot: two entries that open to the same root at the same
/// slot, along paths of the same length, agree in their nullifier, in their commitments, in
/// their ciphertext, in their ephemeral key and in their wrapped keys, each where there are
/// equally many, unless there is a collision of the hash.
pub proof fn root_binds_entry(
    root: nat,
    slot: nat,
    first: EntryView,
    first_path: Seq<nat>,
    second: EntryView,
    second_path: Seq<nat>,
)
    requires
        opens_to(root, slot, first, first_path),
        opens_to(root, slot, second, second_path),
        first_path.len() == second_path.len(),
        !merkle::collision_exists(),
    ensures
        first.nullifier == second.nullifier,
        first.output_commitments.len() == second.output_commitments.len()
            ==> first.output_commitments == second.output_commitments,
        ciphertext_commitment(first) == ciphertext_commitment(second),
        first.ciphertext.len() == second.ciphertext.len() ==> first.ciphertext
            == second.ciphertext,
        first.ek_pk.len() == second.ek_pk.len() ==> first.ek_pk == second.ek_pk,
        first.key_encs.len() == second.key_encs.len() && (forall|i: int|
            0 <= i < first.key_encs.len() ==> (#[trigger] first.key_encs[i]).len() == 32
                && second.key_encs[i].len() == 32) ==> first.key_encs == second.key_encs,
        same_lengths(first, second) ==> first == second,
{
    let x = entry_leaf(slot, first);
    let y = entry_leaf(slot, second);
    if x != y {
        merkle::lemma_opening_binds(x, y, slot, first_path, second_path);
    }
    leaf_binds_slot_and_entry(slot, first, slot, second);
}

/// Only one entry verifies at a slot: two entries, with parts of the same lengths, that
/// [`merkle_verify`] accepts for the same root and slot along paths of the same length are the
/// same, unless there is a collision of the hash.
pub proof fn one_entry_verifies_at_a_slot(
    root: Fr,
    slot: usize,
    first: &BoardEntry,
    first_path: &[Fr],
    second: &BoardEntry,
    second_path: &[Fr],
)
    requires
        call_ensures(merkle_verify, (root, slot, first, first_path), true),
        call_ensures(merkle_verify, (root, slot, second, second_path), true),
        first_path@.len() == second_path@.len(),
        first.ciphertext@.len() == second.ciphertext@.len(),
        first.key_encs@.len() == second.key_encs@.len(),
        first.output_commitments@.len() == second.output_commitments@.len(),
        !merkle::collision_exists(),
    ensures
        first@ == second@,
        first.ciphertext@ == second.ciphertext@,
        first.ek_pk@ == second.ek_pk@,
        first.nullifier@ == second.nullifier@,
        forall|i: int|
            0 <= i < first.key_encs@.len() ==> (#[trigger] first.key_encs@[i])@
                == second.key_encs@[i]@,
        forall|i: int|
            0 <= i < first.output_commitments@.len() ==> (#[trigger]
            first.output_commitments@[i])@ == second.output_commitments@[i]@,
{
    root_binds_entry(
        root@,
        slot as nat,
        first@,
        field::fr_values(first_path@),
        second@,
        field::fr_values(second_path@),
    );
    assert forall|i: int| 0 <= i < first.key_encs@.len() implies (#[trigger]
    first.key_encs@[i])@ == second.key_encs@[i]@ by {
        assert(first@.key_encs[i] == second@.key_encs[i]);
    }
    assert forall|i: int| 0 <= i < first.output_commitments@.len() implies (#[trigger]
    first.output_commitments@[i])@ == second.output_commitments@[i]@ by {
        assert(first@.output_commitments[i] == second@.output_commitments[i]);
    }
}

/// A root binds the whole board: two boards of the same length, at most 2 to the power 32, with
/// parts of the same lengths and with the same root hold the same entries in the same order,
/// unless there is a collision of the hash.
pub proof fn root_binds_board(
    first: &[BoardEntry],
    second: &[BoardEntry],
    first_root: Fr,
    second_root: Fr,
)
    requires
        call_ensures(merkle_root_of, (first,), first_root),
        call_ensures(merkle_root_of, (second,), second_root),
        first@.len() == second@.len(),
        first@.len() <= pow2(32),
        forall|i: int|
            0 <= i < first@.len() ==> same_lengths((#[trigger] first@[i])@, second@[i]@),
        first_root@ == second_root@,
        !merkle::collision_exists(),
    ensures
        forall|i: int| 0 <= i < first@.len() ==> (#[trigger] first@[i])@ == second@[i]@,
{
    let a = entry_views(first@);
    let b = entry_views(second@);
    board_root_is_tree_root(a);
    board_root_is_tree_root(b);
    merkle::root_binds_leaves(board_leaves(a), board_leaves(b));
    assert forall|i: int| 0 <= i < first@.len() implies (#[trigger] first@[i])@
        == second@[i]@ by {
        assert(board_leaves(a)[i] == board_leaves(b)[i]);
        assert(a[i] == first@[i]@ && b[i] == second@[i]@);
        leaf_binds_slot_and_entry(i as nat, a[i], i as nat, b[i]);
    }
}

/// Verifying an entry is computing its leaf, walking the path and comparing the root.
pub proof fn verifying_walks_the_path(
    root: Fr,
    slot: usize,
    entry: &BoardEntry,
    path: &[Fr],
    found: bool,
    leaf: Fr,
    reached: Fr,
)
    requires
        call_ensures(merkle_verify, (root, slot, entry, path), found),
        call_ensures(merkle_leaf, (slot, entry), leaf),
        call_ensures(merkle::compute_root_from_path, (leaf, slot, path), reached),
    ensures
        found <==> reached@ == root@,
{
}

/// A leaf is computed from the commitment to an entry's encrypted parts.
pub proof fn leaf_is_that_of_the_commitment(
    slot: usize,
    entry: &BoardEntry,
    leaf: Fr,
    commitment: Fr,
    outputs: &[Fr],
    by_commitment: Fr,
)
    requires
        call_ensures(merkle_leaf, (slot, entry), leaf),
        call_ensures(entry_ciphertext_commitment, (entry,), commitment),
        outputs@ == entry.output_commitments@,
        call_ensures(
            merkle_leaf_from_commitment,
            (slot, entry.nullifier, outputs, commitment),
            by_commitment,
        ),
    ensures
        leaf@ == by_commitment@,
{
}

/// The last entry of a board, along the path that [`append_proof_for`] gives, verifies under
/// the board's root.
pub proof fn append_proof_verifies(
    entries: &[BoardEntry],
    root: Fr,
    path: Vec<Fr>,
    siblings: &[Fr],
    entry: &BoardEntry,
    found: bool,
)
    requires
        call_ensures(merkle_root_of, (entries,), root),
        call_ensures(append_proof_for, (entries,), path),
        0 < entries@.len() <= pow2(32),
        siblings@ == path@,
        *entry == entries@.last(),
        call_ensures(merkle_verify, (root, (entries@.len() - 1) as usize, entry, siblings), found),
    ensures
        found,
        path@.len() == 32,
{
    let views = entry_views(entries@);
    let slot = (entries@.len() - 1) as nat;
    posted_entry_opens(views, slot);
    assert(views[slot as int] == entry@);
    assert(entries@.len() == entries.len());
    merkle::lemma_path_len(board_leaves(views), 0, slot);
    assert(field::fr_values(path@).len() == path@.len());
}

/// The path of the next slot leads from zero to the root of the board as it is, and from the
/// leaf of an entry that is posted there to the root of the board with it.
pub proof fn next_path_leads_to_both_roots(
    entries: &[BoardEntry],
    path: Vec<Fr>,
    siblings: &[Fr],
    zero: Fr,
    from_zero: Fr,
    root: Fr,
    longer: &[BoardEntry],
    leaf: Fr,
    from_leaf: Fr,
    next_root: Fr,
)
    requires
        call_ensures(append_path_for_next, (entries,), path),
        siblings@ == path@,
        entries@.len() < pow2(32),
        zero@ == 0,
        call_ensures(
            merkle::compute_root_from_path,
            (zero, entries@.len() as usize, siblings),
            from_zero,
        ),
        call_ensures(merkle_root_of, (entries,), root),
        longer@.len() == entries@.len() + 1,
        longer@.drop_last() == entries@,
        call_ensures(merkle_leaf, (entries@.len() as usize, &longer@.last()), leaf),
        call_ensures(
            merkle::compute_root_from_path,
            (leaf, entries@.len() as usize, siblings),
            from_leaf,
        ),
        call_ensures(merkle_root_of, (longer,), next_root),
    ensures
        from_zero@ == root@,
        from_leaf@ == next_root@,
{
    let views = entry_views(entries@);
    let entry = longer@.last()@;
    append_path_shows_old_and_new_root(views, entry);
    assert(entry_views(longer@) =~= views.push(entry)) by {
        assert forall|i: int| 0 <= i < entries@.len() implies entry_views(longer@)[i]
            == views[i] by {
            assert(longer@.drop_last()[i] == entries@[i]);
        }
    }
    assert(entries@.len() == entries.len());
}

/// A board without entries has the root of the empty tree.
pub proof fn empty_board_has_the_empty_root(entries: &[BoardEntry], root: Fr, empty: Fr)
    requires
        call_ensures(merkle_root_of, (entries,), root),
        call_ensures(empty_root, (), empty),
        entries@.len() == 0,
    ensures
        root@ == empty@,
{
}

/// The commitment to an entry's encrypted parts is the hash of three hashes: of the ciphertext,
/// of the ephemeral key, and of the wrapped keys joined in order.
pub proof fn commitment_hashes_every_encrypted_part(
    entry: &BoardEntry,
    r: Fr,
    ciphertext: &[u8],
    first: Fr,
    ephemeral: &[u8],
    second: Fr,
    joined: &[u8],
    third: Fr,
    inputs: &[Fr],
    hash: Fr,
)
    requires
        call_ensures(entry_ciphertext_commitment, (entry,), r),
        ciphertext@ == entry.ciphertext@,
        call_ensures(poseidon::poseidon_hash_bytes, (ciphertext,), first),
        ephemeral@ == entry.ek_pk@,
        call_ensures(poseidon::poseidon_hash_bytes, (ephemeral,), second),
        joined@ == entry.key_encs@.map_values(|k: [u8; 32]| k@).flatten(),
        call_ensures(poseidon::poseidon_hash_bytes, (joined,), third),
        inputs@ == seq![first, second, third],
        call_ensures(poseidon::poseidon_hash, (inputs,), hash),
    ensures
        r@ == hash@,
{
    assert(field::fr_values(inputs@) =~= seq![first@, second@, third@]);
}

/// A leaf is the hash of the slot, the commitment to the encrypted parts, the nullifier, and the
/// hash of the output commitments.
pub proof fn leaf_hashes_every_part(
    slot: usize,
    nullifier: Fr,
    output_commitments: &[Fr],
    commitment: Fr,
    r: Fr,
    number: Fr,
    outputs: Fr,
    inputs: &[Fr],
    hash: Fr,
)
    requires
        call_ensures(
            merkle_leaf_from_commitment,
            (slot, nullifier, output_commitments, commitment),
            r,
        ),
        number@ == slot,
        call_ensures(poseidon::poseidon_hash, (output_commitments,), outputs),
        inputs@ == seq![number, commitment, nullifier, outputs],
        call_ensures(poseidon::poseidon_hash, (inputs,), hash),
    ensures
        r@ == hash@,
{
    assert(field::fr_values(inputs@) =~= seq![number@, commitment@, nullifier@, outputs@]);
}

} // verus!
