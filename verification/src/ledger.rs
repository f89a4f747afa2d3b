//! The public state of the chain, and the circuits' witnesses that it gives to a party.

use vstd::prelude::*;
use vstd::arithmetic::power2::pow2;
use crate::board;
use crate::board::{append_path_for_next, entry_ciphertext_commitment, merkle_leaf, BoardEntry};
use crate::circuit_coinproof::ReceiptStepCircuit;
use crate::circuit_spend;
use crate::circuit_spend::{
    GenesisSpendCircuit, SpendStepCircuit, MAX_INPUTS, MAX_OUTPUTS, RECEIPT_PUBLIC_INPUT_COUNT,
    SPEND_PUBLIC_INPUT_COUNT,
};
use crate::circuit_wrap;
use crate::coin;
use crate::coin::{copy_frs, Coin};
use crate::envelope;
use crate::envelope::own_nullifier;
use crate::field;
use crate::field::Fr;
use crate::gadgets;
use crate::groth16;
use crate::groth16::SynthesisError;
use crate::keys;
use crate::keys::owner_pk_to_field_pair;
use crate::merkle;
use crate::merkle::compute_root_from_path;
use crate::nullifier;
use crate::nullifier::{NonMembershipWitness, NullifierTree};
use crate::poseidon;
use crate::relations;
use crate::wallet;
use crate::wallet::{commitments_of, pad_outputs, Party};

verus! {

/// The board and the accumulator of the nullifiers that its entries published.
#[derive(Clone, Debug)]
pub struct Ledger {
    pub entries: Vec<BoardEntry>,
    pub spent: NullifierTree,
}

/// What a [`Ledger`] holds.
#[verifier::ext_equal]
pub struct LedgerView {
    pub entries: Seq<board::EntryView>,
    pub spent: Seq<nullifier::LeafView>,
}

impl View for Ledger {
    type V = LedgerView;

    open spec fn view(&self) -> LedgerView {
        LedgerView { entries: board::entry_views(self.entries@), spent: self.spent@ }
    }
}

/// A ledger without entries.
pub open spec fn empty_ledger() -> LedgerView {
    LedgerView { entries: Seq::empty(), spent: nullifier::initial_leaves() }
}

/// The path of the next free slot.
pub open spec fn next_path(ledger: LedgerView) -> Seq<nat> {
    merkle::tree_path(board::board_leaves(ledger.entries), ledger.entries.len())
}

/// The root that a spend is bound to: that of the board with the next slot still empty.
pub open spec fn anchor_root(ledger: LedgerView) -> nat {
    merkle::path_root(0, ledger.entries.len(), next_path(ledger))
}

/// Values that bind a spend to the state of a ledger.
pub open spec fn is_anchored(
    ledger: LedgerView,
    position: Option<u64>,
    path: Option<Vec<Fr>>,
    board_root: Option<Fr>,
    nullifier_root: Option<Fr>,
) -> bool {
    &&& position is Some && position->0 == ledger.entries.len()
    &&& path is Some && field::fr_values(path->0@) == next_path(ledger)
    &&& board_root is Some && board_root->0@ == anchor_root(ledger)
    &&& nullifier_root is Some && nullifier_root->0@ == nullifier::accumulator_root(ledger.spent)
}

/// The nullifier that a party publishes by spending a coin.
pub open spec fn spending_nullifier(spender: Party, c: Coin) -> nat {
    envelope::nullifier_of(coin::coin_commitment(c@), spender.sk_p@)
}

/// Slots that coins fill from the first one on.
pub open spec fn slots(coins: Seq<Coin>) -> Seq<Option<Coin>> {
    Seq::new(
        2,
        |i: int|
            if i < coins.len() {
                Some(coins[i])
            } else {
                None
            },
    )
}

/// Witnesses for the absence of the nullifiers of coins, slot by slot.
pub open spec fn are_witnesses(
    witnesses: Seq<Option<NonMembershipWitness>>,
    ledger: LedgerView,
    spender: Party,
    coins: Seq<Coin>,
) -> bool {
    &&& witnesses.len() == MAX_INPUTS
    &&& forall|i: int|
        0 <= i < MAX_INPUTS ==> (#[trigger] witnesses[i]) is Some == (i < coins.len())
    &&& forall|i: int|
        0 <= i < coins.len() ==> (#[trigger] witnesses[i])->0@ == nullifier::witness_for(
            ledger.spent,
            spending_nullifier(spender, coins[i]),
        )
}

/// The circuit of a mint: one coin of the minter becomes one coin of someone else.
pub open spec fn is_mint(
    c: GenesisSpendCircuit,
    ledger: LedgerView,
    minter: Party,
    input: Coin,
    output: Coin,
) -> bool {
    &&& c.pk_p == Some(minter.pk_p)
    &&& c.sk_p == Some(minter.sk_p)
    &&& c.input_coins@ == slots(seq![input])
    &&& c.output_coins@ == slots(seq![output])
    &&& c.output_commitments is Some
    &&& field::fr_values(c.output_commitments->0@) == wallet::padded(
        coin::coin_commitments(seq![output]),
    )
    &&& is_anchored(
        ledger,
        c.entry_position,
        c.append_path,
        c.board_root,
        c.current_nullifier_root,
    )
    &&& are_witnesses(c.own_nullifier_nonmembership@, ledger, minter, seq![input])
}

/// A wrapped receipt of a coin.
#[derive(Clone, Debug)]
pub struct Received {
    pub coin: Coin,
    pub snark: Vec<u8>,
    pub publics: [Fr; RECEIPT_PUBLIC_INPUT_COUNT],
}

/// The coins of receipts.
pub open spec fn received_coins(received: Seq<Received>) -> Seq<Coin> {
    received.map_values(|r: Received| r.coin)
}

/// The circuit of a spend of received coins.
pub open spec fn is_spend(
    c: SpendStepCircuit,
    ledger: LedgerView,
    spender: Party,
    received: Seq<Received>,
    wrap_vk: Seq<u8>,
    outputs: Seq<Coin>,
) -> bool {
    let inputs = received_coins(received);
    &&& c.pk_p == Some(spender.pk_p)
    &&& c.sk_p == Some(spender.sk_p)
    &&& c.input_coins@ == slots(inputs)
    &&& c.output_coins@ == slots(outputs)
    &&& c.output_commitments is Some
    &&& field::fr_values(c.output_commitments->0@) == wallet::padded(
        coin::coin_commitments(outputs),
    )
    &&& is_anchored(
        ledger,
        c.entry_position,
        c.append_path,
        c.board_root,
        c.current_nullifier_root,
    )
    &&& are_witnesses(c.own_nullifier_nonmembership@, ledger, spender, inputs)
    &&& c.wrap_vk@ == wrap_vk
    &&& forall|i: int|
        0 <= i < MAX_INPUTS ==> {
            &&& (#[trigger] c.input_receipt_proofs@[i]) is Some == (i < received.len())
            &&& c.input_receipt_public_inputs@[i] is Some == (i < received.len())
        }
    &&& forall|i: int|
        0 <= i < received.len() ==> {
            &&& (#[trigger] c.input_receipt_proofs@[i])->0@ == received[i].snark@
            &&& c.input_receipt_public_inputs@[i]->0@ == received[i].publics@
        }
}

/// A spend on the board, with what a recipient needs to build a receipt: the spend's public
/// values, its entry and slot, and the state of the accumulator just before it.
#[derive(Clone, Debug)]
pub struct Posted {
    pub publics: [Fr; SPEND_PUBLIC_INPUT_COUNT],
    pub outputs: [Fr; MAX_OUTPUTS],
    pub entry: BoardEntry,
    pub slot: usize,
    pub path: Vec<Fr>,
    pub nullifier_root: Fr,
    pub witness: NonMembershipWitness,
}

impl Posted {
    /// The entry was posted to a ledger in the given state.
    pub open spec fn follows(&self, before: LedgerView) -> bool {
        &&& self.slot == before.entries.len()
        &&& field::fr_values(self.path@) == next_path(before)
        &&& self.nullifier_root@ == nullifier::accumulator_root(before.spent)
        &&& self.witness@ == nullifier::witness_for(before.spent, self.entry@.nullifier)
        &&& self.path@.len() == merkle::TREE_DEPTH
        &&& self.witness.sibling_path@.len() == merkle::TREE_DEPTH
    }

    /// The board root that the entry's path leads to.
    pub open spec fn root(&self) -> nat {
        merkle::path_root(
            board::entry_leaf(self.slot as nat, self.entry@),
            self.slot as nat,
            field::fr_values(self.path@),
        )
    }
}

/// The circuit of a receipt for a coin of a posted spend.
pub open spec fn is_receipt(
    c: ReceiptStepCircuit,
    owner: Party,
    received: Coin,
    posted: Posted,
    wrap_vk: Seq<u8>,
    snark: Seq<u8>,
) -> bool {
    &&& c.is_complete()
    &&& c.owner() == keys::coordinates(owner.pk_p@)
    &&& c.coin_commitment->0@ == coin::coin_commitment(received@)
    &&& c.board_root->0@ == posted.root()
    &&& c.received_at->0 == posted.slot
    &&& c.wrap_vk@ == wrap_vk
    &&& c.wrap_proof is Some
    &&& c.wrap_proof->0@ == snark
    &&& c.wrap_public_inputs->0@ == posted.publics@
    &&& c.entry_nullifier->0@ == posted.entry@.nullifier
    &&& c.entry_output_commitments->0@ == posted.outputs@
    &&& c.entry_ciphertext_commitment->0@ == board::ciphertext_commitment(posted.entry@)
    &&& c.received_slot->0 == posted.slot
    &&& field::fr_values(c.append_path->0@) == field::fr_values(posted.path@)
    &&& c.parent_nonmembership->0@ == posted.witness@
    &&& c.nullifier_root_at_parent_slot->0@ == posted.nullifier_root@
    &&& c.sk_p->0@ == owner.sk_p@
    &&& c.coin_value->0 == received.value
    &&& c.coin_rand->0@ == received.rand@
}

/// A copy of bytes.
pub fn copy_bytes(bytes: &[u8]) -> (r: Vec<u8>)
    ensures
        r@ == bytes@,
{
    let mut out: Vec<u8> = Vec::new();
    envelope::push_bytes(&mut out, bytes);
    assert(out@ =~= bytes@);
    out
}

/// A copy of an entry.
pub fn copy_entry(entry: &BoardEntry) -> (r: BoardEntry)
    ensures
        r@ == entry@,
{
    let mut key_encs: Vec<[u8; 32]> = Vec::new();
    let mut i: usize = 0;
    while i < entry.key_encs.len()
        invariant
            i <= entry.key_encs@.len(),
            key_encs@ == entry.key_encs@.take(i as int),
        decreases entry.key_encs@.len() - i,
    {
        key_encs.push(entry.key_encs[i]);
        i += 1;
        assert(key_encs@ =~= entry.key_encs@.take(i as int));
    }
    assert(key_encs@ =~= entry.key_encs@);
    BoardEntry {
        ciphertext: copy_bytes(entry.ciphertext.as_slice()),
        ek_pk: entry.ek_pk,
        key_encs,
        nullifier: entry.nullifier,
        output_commitments: copy_frs(entry.output_commitments.as_slice()),
    }
}

/// A copy of a witness.
fn copy_witness(witness: &NonMembershipWitness) -> (r: NonMembershipWitness)
    ensures
        r@ == witness@,
        r.sibling_path@.len() == witness.sibling_path@.len(),
{
    NonMembershipWitness {
        low_leaf: witness.low_leaf,
        low_leaf_index: witness.low_leaf_index,
        sibling_path: copy_frs(witness.sibling_path.as_slice()),
    }
}

/// The coin at a place, where there is one.
fn slot_at(coins: &[Coin], i: usize) -> (r: Option<Coin>)
    ensures
        r == (if i < coins@.len() {
            Some(coins@[i as int])
        } else {
            None
        }),
{
    if i < coins.len() {
        Some(coins[i])
    } else {
        None
    }
}

impl Ledger {
    /// The accumulator is well formed.
    pub open spec fn well_formed(&self) -> bool {
        self.spent.well_formed()
    }

    /// A ledger without entries.
    pub fn new() -> (r: Ledger)
        ensures
            r.well_formed(),
            r@ == empty_ledger(),
    {
        let r = Ledger { entries: Vec::new(), spent: NullifierTree::new() };
        assert(r@ =~= empty_ledger());
        r
    }

    /// The path of the next free slot, and the board root that it shows.
    pub fn anchor(&self) -> (r: (Vec<Fr>, Fr))
        ensures
            field::fr_values(r.0@) == next_path(self@),
            r.0@.len() == merkle::TREE_DEPTH,
            r.1@ == anchor_root(self@),
    {
        proof {
            merkle::lemma_path_len(board::board_leaves(self@.entries), 0, self@.entries.len());
        }
        let path = append_path_for_next(self.entries.as_slice());
        let root = compute_root_from_path(
            Fr::from(0u64),
            self.entries.len(),
            path.as_slice(),
        );
        (path, root)
    }

    /// The witness for the absence of a coin's nullifier. The nullifier zero is a
    /// member of every accumulator and has none that verifies.
    pub fn unspent(&self, spender: &Party, c: &Coin) -> (r: Option<NonMembershipWitness>)
        requires
            self.well_formed(),
        ensures
            r is Some == (spending_nullifier(*spender, *c) > 0),
            r matches Some(w) ==> w@ == nullifier::witness_for(
                self@.spent,
                spending_nullifier(*spender, *c),
            ),
            gadgets::witness_reaches_root(r),
    {
        let target = own_nullifier(c.commitment(), &spender.sk_p);
        proof {
            let leaves = self@.spent;
            merkle::lemma_path_len(
                nullifier::leaf_hashes(leaves),
                0,
                nullifier::low_index(leaves, target@) as nat,
            );
        }
        if Fr::from(0u64).less_than(&target) {
            Some(self.spent.prove_non_membership(target))
        } else {
            None
        }
    }

    /// The circuit of a mint, unless the minted coin's nullifier is zero.
    pub fn mint(&self, minter: &Party, input: &Coin, output: &Coin) -> (r: Option<
        GenesisSpendCircuit,
    >)
        requires
            self.well_formed(),
        ensures
            r is Some == (spending_nullifier(*minter, *input) > 0),
            r matches Some(c) ==> {
                &&& is_mint(c, self@, *minter, *input, *output)
                &&& circuit_spend::paths_reach_root(c.append_path, c.own_nullifier_nonmembership@)
            },
    {
        let witness = match self.unspent(minter, input) {
            Some(w) => w,
            None => {
                return None;
            },
        };
        let commitments: [Fr; 1] = [output.commitment()];
        let outputs = pad_outputs(&commitments);
        let (path, root) = self.anchor();
        let c = GenesisSpendCircuit {
            pk_p: Some(minter.pk_p),
            output_commitments: Some(outputs),
            board_root: Some(root),
            current_nullifier_root: Some(self.spent.root()),
            sk_p: Some(minter.sk_p),
            input_coins: [Some(*input), None],
            output_coins: [Some(*output), None],
            entry_position: Some(self.entries.len() as u64),
            append_path: Some(path),
            own_nullifier_nonmembership: [Some(witness), None],
        };
        proof {
            assert(field::fr_values(commitments@) =~= coin::coin_commitments(seq![*output]));
            assert(c.input_coins@ =~= slots(seq![*input]));
            assert(c.output_coins@ =~= slots(seq![*output]));
        }
        Some(c)
    }

    /// The circuit of a spend of one or two received coins into one or two others, unless a
    /// nullifier is zero.
    pub fn spend(
        &self,
        spender: &Party,
        received: &[Received],
        wrap_vk: &[u8],
        outputs: &[Coin],
    ) -> (r: Option<SpendStepCircuit>)
        requires
            self.well_formed(),
            0 < received@.len() <= MAX_INPUTS,
            0 < outputs@.len() <= MAX_OUTPUTS,
        ensures
            r is Some == (forall|i: int|
                0 <= i < received@.len() ==> spending_nullifier(
                    *spender,
                    (#[trigger] received@[i]).coin,
                ) > 0),
            r matches Some(c) ==> {
                &&& is_spend(c, self@, *spender, received@, wrap_vk@, outputs@)
                &&& circuit_spend::paths_reach_root(c.append_path, c.own_nullifier_nonmembership@)
            },
    {
        let first = match self.unspent(spender, &received[0].coin) {
            Some(w) => w,
            None => {
                assert(!(spending_nullifier(*spender, received@[0].coin) > 0));
                return None;
            },
        };
        let second: Option<NonMembershipWitness> = if received.len() > 1 {
            let w = self.unspent(spender, &received[1].coin);
            if w.is_none() {
                assert(!(spending_nullifier(*spender, received@[1].coin) > 0));
                return None;
            }
            w
        } else {
            None
        };
        let (second_coin, second_proof, second_publics) = if received.len() > 1 {
            (
                Some(received[1].coin),
                Some(copy_bytes(received[1].snark.as_slice())),
                Some(received[1].publics),
            )
        } else {
            (None, None, None)
        };
        let commitments = commitments_of(outputs);
        let (path, root) = self.anchor();
        let c = SpendStepCircuit {
            pk_p: Some(spender.pk_p),
            output_commitments: Some(pad_outputs(commitments.as_slice())),
            board_root: Some(root),
            current_nullifier_root: Some(self.spent.root()),
            sk_p: Some(spender.sk_p),
            input_coins: [Some(received[0].coin), second_coin],
            output_coins: [slot_at(outputs, 0), slot_at(outputs, 1)],
            entry_position: Some(self.entries.len() as u64),
            append_path: Some(path),
            own_nullifier_nonmembership: [Some(first), second],
            wrap_vk: copy_bytes(wrap_vk),
            input_receipt_proofs: [
                Some(copy_bytes(received[0].snark.as_slice())),
                second_proof,
            ],
            input_receipt_public_inputs: [Some(received[0].publics), second_publics],
        };
        proof {
            assert(c.input_coins@ =~= slots(received_coins(received@)));
            assert(c.output_coins@ =~= slots(outputs@));
        }
        Some(c)
    }

    /// Post the entry of a spend. Returns what a recipient needs for a receipt, unless the
    /// entry's nullifier is zero; then nothing is posted.
    pub fn post(
        &mut self,
        entry: BoardEntry,
        publics: [Fr; SPEND_PUBLIC_INPUT_COUNT],
        outputs: [Fr; MAX_OUTPUTS],
    ) -> (r: Option<Posted>)
        requires
            old(self).well_formed(),
        ensures
            final(self).well_formed(),
            r is Some == (entry@.nullifier > 0),
            r is None ==> *final(self) == *old(self),
            r matches Some(posted) ==> {
                &&& posted.follows(old(self)@)
                &&& posted.entry@ == entry@
                &&& posted.publics == publics
                &&& posted.outputs == outputs
                &&& final(self)@ == (LedgerView {
                    entries: old(self)@.entries.push(entry@),
                    spent: nullifier::inserted(old(self)@.spent, entry@.nullifier),
                })
            },
    {
        let (path, _root) = self.anchor();
        if !Fr::from(0u64).less_than(&entry.nullifier) {
            return None;
        }
        proof {
            let leaves = self@.spent;
            merkle::lemma_path_len(
                nullifier::leaf_hashes(leaves),
                0,
                nullifier::low_index(leaves, entry@.nullifier) as nat,
            );
        }
        let posted = Posted {
            publics,
            outputs,
            entry: copy_entry(&entry),
            slot: self.entries.len(),
            path,
            nullifier_root: self.spent.root(),
            witness: self.spent.prove_non_membership(entry.nullifier),
        };
        let _new_root = self.spent.insert(entry.nullifier);
        self.entries.push(entry);
        assert(self@.entries =~= old(self)@.entries.push(entry@));
        Some(posted)
    }
}

/// The circuit of a receipt for a coin of a posted spend.
pub fn receipt(
    owner: &Party,
    received: &Coin,
    posted: &Posted,
    wrap_vk: &[u8],
    snark: &[u8],
) -> (r: ReceiptStepCircuit)
    ensures
        is_receipt(r, *owner, *received, *posted, wrap_vk@, snark@),
        r.append_path->0@.len() == posted.path@.len(),
        r.parent_nonmembership->0.sibling_path@.len() == posted.witness.sibling_path@.len(),
{
    let (x, y) = owner_pk_to_field_pair(&owner.pk_p);
    let leaf = merkle_leaf(posted.slot, &posted.entry);
    let root = compute_root_from_path(leaf, posted.slot, posted.path.as_slice());
    ReceiptStepCircuit {
        owner_pk_x: Some(x),
        owner_pk_y: Some(y),
        coin_commitment: Some(received.commitment()),
        board_root: Some(root),
        received_at: Some(posted.slot as u64),
        wrap_vk: copy_bytes(wrap_vk),
        wrap_proof: Some(copy_bytes(snark)),
        wrap_public_inputs: Some(posted.publics),
        entry_nullifier: Some(posted.entry.nullifier),
        entry_output_commitments: Some(posted.outputs),
        entry_ciphertext_commitment: Some(entry_ciphertext_commitment(&posted.entry)),
        received_slot: Some(posted.slot as u64),
        append_path: Some(copy_frs(posted.path.as_slice())),
        parent_nonmembership: Some(copy_witness(&posted.witness)),
        nullifier_root_at_parent_slot: Some(posted.nullifier_root),
        sk_p: Some(owner.sk_p),
        coin_value: Some(received.value),
        coin_rand: Some(received.rand),
    }
}

/// A ledger that fits its trees, with room for another entry.
pub open spec fn has_room(ledger: LedgerView) -> bool {
    &&& nullifier::is_linked_list(ledger.spent)
    &&& ledger.spent.len() < pow2(32)
    &&& ledger.entries.len() < pow2(32)
}

/// A nullifier that is neither of the accumulator's two bounds and was not published.
pub open spec fn is_fresh(ledger: LedgerView, nullifier: nat) -> bool {
    &&& 0 < nullifier < nullifier::max_value()
    &&& !nullifier::has_value(ledger.spent, nullifier)
}

/// The sum over slots is the sum over the coins that fill them.
proof fn lemma_slots_total(coins: Seq<Coin>)
    requires
        0 < coins.len() <= 2,
    ensures
        circuit_spend::active_total(slots(coins), 2) == relations::total_value(coins),
{
    assert(circuit_spend::active_coins(slots(coins)) =~= coins);
    circuit_spend::lemma_totals_agree(slots(coins));
}

/// The slots of an honest spend satisfy what the circuits ask of inputs.
proof fn lemma_inputs_hold(
    ledger: LedgerView,
    spender: Party,
    coins: Seq<Coin>,
    witnesses: Seq<Option<NonMembershipWitness>>,
    i: int,
)
    requires
        has_room(ledger),
        0 < coins.len() <= MAX_INPUTS,
        0 <= i < MAX_INPUTS,
        are_witnesses(witnesses, ledger, spender, coins),
        forall|j: int|
            0 <= j < coins.len() ==> (#[trigger] coins[j]).owner_pk@ == spender.pk_p@ && is_fresh(
                ledger,
                spending_nullifier(spender, coins[j]),
            ),
    ensures
        circuit_spend::input_holds(
            slots(coins),
            witnesses,
            keys::coordinates(spender.pk_p@),
            spender.sk_p@,
            nullifier::accumulator_root(ledger.spent),
            i,
        ),
{
    if i < coins.len() {
        assert(coins[i].owner_pk@ == spender.pk_p@);
        let target = spending_nullifier(spender, coins[i]);
        nullifier::absent_value_has_a_valid_witness(ledger.spent, target);
        let witness = witnesses[i]->0@;
        assert(witness == nullifier::witness_for(ledger.spent, target));
        merkle::lemma_path_len(
            nullifier::leaf_hashes(ledger.spent),
            0,
            nullifier::low_index(ledger.spent, target) as nat,
        );
        assert(witness.sibling_path.take(32) =~= witness.sibling_path);
        assert(gadgets::slot_witness(witnesses[i]) == witness);
    }
}

/// The slots of an honest spend satisfy what the circuits ask of outputs.
proof fn lemma_outputs_hold(coins: Seq<Coin>, j: int)
    requires
        0 < coins.len() <= MAX_OUTPUTS,
        0 <= j < MAX_OUTPUTS,
    ensures
        circuit_spend::output_holds(
            slots(coins),
            wallet::padded(coin::coin_commitments(coins)),
            j,
        ),
{
}

/// An honest mint satisfies its circuit: the minter holds the genesis key and the input, the
/// input was not minted before, and the output is worth as much.
pub proof fn honest_mint_satisfies_circuit(
    c: GenesisSpendCircuit,
    ledger: LedgerView,
    minter: Party,
    input: Coin,
    output: Coin,
)
    requires
        has_room(ledger),
        is_mint(c, ledger, minter, input, output),
        minter.owns_its_key(),
        minter.sk_p@ == 1,
        input.owner_pk@ == minter.pk_p@,
        is_fresh(ledger, spending_nullifier(minter, input)),
        input.value == output.value,
    ensures
        c.is_complete(),
        c.relation(),
{
    let path = field::fr_values(c.append_path->0@);
    merkle::lemma_path_len(board::board_leaves(ledger.entries), 0, ledger.entries.len());
    assert(path.take(32) =~= path);
    assert forall|i: int| 0 <= i < MAX_INPUTS implies #[trigger] circuit_spend::input_holds(
        c.input_coins@,
        c.own_nullifier_nonmembership@,
        keys::coordinates(c.pk_p->0@),
        c.sk_p->0@,
        c.current_nullifier_root->0@,
        i,
    ) by {
        lemma_inputs_hold(ledger, minter, seq![input], c.own_nullifier_nonmembership@, i);
    }
    assert forall|j: int| 0 <= j < MAX_OUTPUTS implies #[trigger] circuit_spend::output_holds(
        c.output_coins@,
        field::fr_values(c.output_commitments->0@),
        j,
    ) by {
        lemma_outputs_hold(seq![output], j);
    }
    lemma_slots_total(seq![input]);
    lemma_slots_total(seq![output]);
    reveal_with_fuel(relations::total_value, 2);
    assert(seq![input].drop_last().len() == 0);
    assert(seq![output].drop_last().len() == 0);
}

/// A receipt's wrapped proof verifies, for a coin of the given owner.
pub open spec fn is_verified_receipt(r: Received, wrap_vk: Seq<u8>, owner: Party) -> bool {
    &&& groth16::mnt6_outcome(
        wrap_vk,
        circuit_wrap::chunks_of(field::fr_values(r.publics@)),
        r.snark@,
    ) == Ok::<bool, SynthesisError>(true)
    &&& (r.publics@[0]@, r.publics@[1]@) == keys::coordinates(owner.pk_p@)
    &&& r.publics@[2]@ == coin::coin_commitment(r.coin@)
}

/// An honest spend satisfies its circuit: the spender owns the inputs and holds verified
/// receipts for them, they were not spent before, and the outputs are worth as much.
pub proof fn honest_spend_satisfies_circuit(
    c: SpendStepCircuit,
    ledger: LedgerView,
    spender: Party,
    received: Seq<Received>,
    wrap_vk: Seq<u8>,
    outputs: Seq<Coin>,
)
    requires
        has_room(ledger),
        0 < received.len() <= MAX_INPUTS,
        0 < outputs.len() <= MAX_OUTPUTS,
        is_spend(c, ledger, spender, received, wrap_vk, outputs),
        spender.owns_its_key(),
        forall|i: int|
            0 <= i < received.len() ==> {
                &&& (#[trigger] received[i]).coin.owner_pk@ == spender.pk_p@
                &&& is_fresh(ledger, spending_nullifier(spender, received[i].coin))
                &&& is_verified_receipt(received[i], wrap_vk, spender)
            },
        relations::total_value(received_coins(received)) == relations::total_value(outputs),
    ensures
        c.is_complete(),
        c.relation(),
{
    let path = field::fr_values(c.append_path->0@);
    merkle::lemma_path_len(board::board_leaves(ledger.entries), 0, ledger.entries.len());
    assert(path.take(32) =~= path);
    let inputs = received_coins(received);
    assert forall|j: int| 0 <= j < inputs.len() implies (#[trigger] inputs[j]).owner_pk@
        == spender.pk_p@ && is_fresh(ledger, spending_nullifier(spender, inputs[j])) by {
        assert(inputs[j] == received[j].coin);
    }
    assert forall|i: int| 0 <= i < MAX_INPUTS implies #[trigger] c.input_is_backed(i) by {
        lemma_inputs_hold(ledger, spender, inputs, c.own_nullifier_nonmembership@, i);
        if i < received.len() {
            assert(received[i].coin == inputs[i]);
            assert(c.input_receipt_proofs@[i]->0@ == received[i].snark@);
        } else {
            assert(i > 0);
        }
    }
    assert forall|j: int| 0 <= j < MAX_OUTPUTS implies #[trigger] circuit_spend::output_holds(
        c.output_coins@,
        field::fr_values(c.output_commitments->0@),
        j,
    ) by {
        lemma_outputs_hold(outputs, j);
    }
    lemma_slots_total(inputs);
    lemma_slots_total(outputs);
}

/// An honest receipt satisfies its circuit: the coin is its owner's and an output of the
/// posted spend, the wrapped spend proof verifies, and the spend's nullifier was fresh when
/// it was posted. The entry holds the outputs of the spend, with the same hash as when they
/// are filled up with zeros, as `outputs_agree` finds of all that `pad_outputs` fills up.
pub proof fn honest_receipt_satisfies_circuit(
    c: ReceiptStepCircuit,
    before: LedgerView,
    owner: Party,
    received: Coin,
    posted: Posted,
    wrap_vk: Seq<u8>,
    snark: Seq<u8>,
)
    requires
        has_room(before),
        posted.follows(before),
        is_receipt(c, owner, received, posted, wrap_vk, snark),
        owner.owns_its_key(),
        received.owner_pk@ == owner.pk_p@,
        is_fresh(before, posted.entry@.nullifier),
        field::fr_values(posted.outputs@).contains(coin::coin_commitment(received@)),
        field::fr_values(posted.publics@).subrange(2, 4) == field::fr_values(posted.outputs@),
        poseidon::poseidon(posted.entry@.output_commitments) == poseidon::poseidon(
            field::fr_values(posted.outputs@),
        ),
        groth16::mnt6_outcome(
            wrap_vk,
            circuit_wrap::chunks_of(field::fr_values(posted.publics@)),
            snark,
        ) == Ok::<bool, SynthesisError>(true),
    ensures
        c.is_complete(),
        c.relation(),
        c.board_root->0@ == board::board_root(before.entries.push(posted.entry@)),
{
    let path = field::fr_values(c.append_path->0@);
    merkle::lemma_path_len(board::board_leaves(before.entries), 0, before.entries.len());
    assert(path.take(32) =~= path);
    let target = posted.entry@.nullifier;
    nullifier::absent_value_has_a_valid_witness(before.spent, target);
    let witness = posted.witness@;
    merkle::lemma_path_len(
        nullifier::leaf_hashes(before.spent),
        0,
        nullifier::low_index(before.spent, target) as nat,
    );
    assert(witness.sibling_path.take(32) =~= witness.sibling_path);
    assert(gadgets::slot_witness(c.parent_nonmembership) == witness);
    board::append_path_shows_old_and_new_root(before.entries, posted.entry@);
}

/// Posting an entry publishes its nullifier and no other one.
pub proof fn posting_publishes_one_nullifier(
    before: LedgerView,
    after: LedgerView,
    entry: board::EntryView,
    other: nat,
)
    requires
        nullifier::is_linked_list(before.spent),
        after.spent == nullifier::inserted(before.spent, entry.nullifier),
    ensures
        nullifier::has_value(after.spent, other) <==> nullifier::has_value(before.spent, other)
            || other == entry.nullifier,
{
    nullifier::insertion_adds_exactly_the_value(before.spent, entry.nullifier, other);
}

/// A coin whose nullifier was published cannot be spent again: no assignment with the coin in
/// an active slot satisfies a spend circuit over a ledger that holds the nullifier, unless
/// there is a collision of the hash or a preimage of zero.
pub proof fn second_spend_fails(
    publics: Seq<nat>,
    w: circuit_spend::SpendWitness,
    i: int,
    ledger: LedgerView,
)
    requires
        nullifier::is_linked_list(ledger.spent),
        circuit_spend::spend_holds(publics, w),
        0 <= i < MAX_INPUTS,
        w.inputs[i].active,
        publics[5] == nullifier::accumulator_root(ledger.spent),
        nullifier::has_value(
            ledger.spent,
            envelope::nullifier_of(gadgets::parts_commitment(w.inputs[i].coin), w.sk),
        ),
    ensures
        merkle::collision_exists() || nullifier::zero_preimage_exists(),
{
    let slot = w.inputs[i];
    assert(circuit_spend::input_slot_holds(slot, (publics[0], publics[1]), w.sk, publics[5]));
    nullifier::no_witness_verifies_for_a_member(
        ledger.spent,
        envelope::nullifier_of(gadgets::parts_commitment(slot.coin), w.sk),
        slot.absence,
    );
}

/// A mint is bound to the ledger: its circuit holds the minter's keys, the two coins, the
/// commitment of the new one with a zero behind it, the board's root and size, and the
/// accumulator's root. There is one if and only if the coin's nullifier is not zero.
pub proof fn mint_is_bound_to_the_ledger(
    ledger: &Ledger,
    minter: &Party,
    input: &Coin,
    output: &Coin,
    r: Option<GenesisSpendCircuit>,
    entries: &[BoardEntry],
    board_root: Fr,
    nullifier_root: Fr,
    spent: Fr,
    nullifier: Fr,
    created: Fr,
)
    requires
        ledger.well_formed(),
        ledger.entries@.len() < pow2(32),
        call_ensures(Ledger::mint, (ledger, minter, input, output), r),
        entries@ == ledger.entries@,
        call_ensures(board::merkle_root_of, (entries,), board_root),
        call_ensures(NullifierTree::root, (&ledger.spent,), nullifier_root),
        call_ensures(Coin::commitment, (input,), spent),
        call_ensures(own_nullifier, (spent, &minter.sk_p), nullifier),
        call_ensures(Coin::commitment, (output,), created),
    ensures
        r is Some <==> nullifier@ > 0,
        r matches Some(c) ==> {
            &&& c.pk_p == Some(minter.pk_p)
            &&& c.sk_p == Some(minter.sk_p)
            &&& c.input_coins@ == seq![Some(*input), None::<Coin>]
            &&& c.output_coins@ == seq![Some(*output), None::<Coin>]
            &&& c.output_commitments->0@[0]@ == created@
            &&& c.output_commitments->0@[1]@ == 0
            &&& c.board_root->0@ == board_root@
            &&& c.entry_position->0 == entries@.len()
            &&& c.current_nullifier_root->0@ == nullifier_root@
        },
{
    if let Some(c) = r {
        let values = field::fr_values(c.output_commitments->0@);
        assert(c.input_coins@ =~= seq![Some(*input), None::<Coin>]);
        assert(c.output_coins@ =~= seq![Some(*output), None::<Coin>]);
        assert(values[0] == c.output_commitments->0@[0]@);
        assert(values[1] == c.output_commitments->0@[1]@);
        assert(coin::coin_commitments(seq![*output])[0] == created@);
        board::append_path_shows_old_and_new_root(ledger@.entries, arbitrary());
    }
}

/// A spend is bound to the ledger in the same way. It takes the received coins with their
/// receipts and proofs, slot by slot, and creates the outputs.
pub proof fn spend_is_bound_to_the_ledger(
    ledger: &Ledger,
    spender: &Party,
    received: &[Received],
    wrap_vk: &[u8],
    outputs: &[Coin],
    r: Option<SpendStepCircuit>,
    entries: &[BoardEntry],
    board_root: Fr,
    nullifier_root: Fr,
    i: int,
    created: Fr,
)
    requires
        ledger.well_formed(),
        ledger.entries@.len() < pow2(32),
        0 < received@.len() <= 2,
        0 < outputs@.len() <= 2,
        call_ensures(Ledger::spend, (ledger, spender, received, wrap_vk, outputs), r),
        entries@ == ledger.entries@,
        call_ensures(board::merkle_root_of, (entries,), board_root),
        call_ensures(NullifierTree::root, (&ledger.spent,), nullifier_root),
        0 <= i < 2,
        i < outputs@.len() ==> call_ensures(Coin::commitment, (&outputs@[i],), created),
    ensures
        r matches Some(c) ==> {
            &&& c.pk_p == Some(spender.pk_p)
            &&& c.sk_p == Some(spender.sk_p)
            &&& c.wrap_vk@ == wrap_vk@
            &&& c.board_root->0@ == board_root@
            &&& c.entry_position->0 == entries@.len()
            &&& c.current_nullifier_root->0@ == nullifier_root@
            &&& i < received@.len() ==> {
                &&& c.input_coins@[i] == Some(received@[i].coin)
                &&& c.input_receipt_proofs@[i]->0@ == received@[i].snark@
                &&& c.input_receipt_public_inputs@[i]->0@ == received@[i].publics@
            }
            &&& i >= received@.len() ==> c.input_coins@[i] is None
            &&& i < outputs@.len() ==> c.output_coins@[i] == Some(outputs@[i])
                && c.output_commitments->0@[i]@ == created@
            &&& i >= outputs@.len() ==> c.output_coins@[i] is None
                && c.output_commitments->0@[i]@ == 0
        },
{
    if let Some(c) = r {
        let values = field::fr_values(c.output_commitments->0@);
        assert(values[i] == c.output_commitments->0@[i]@);
        assert(received_coins(received@).len() == received@.len());
        if i < received@.len() {
            assert(received_coins(received@)[i] == received@[i].coin);
            assert(c.input_receipt_proofs@[i]->0@ == received@[i].snark@);
        }
        if i < outputs@.len() {
            assert(coin::coin_commitments(outputs@)[i] == created@);
        }
        board::append_path_shows_old_and_new_root(ledger@.entries, arbitrary());
    }
}

/// A receipt's circuit names the owner, the coin and the posted spend: its public inputs are the
/// owner's coordinates, the coin's commitment, the root that the posted entry reaches, and its
/// slot; its witness opens the coin, and holds the entry, the spend and the state of the
/// accumulator as they were posted.
pub proof fn receipt_names_the_posted_spend(
    owner: &Party,
    received: &Coin,
    posted: &Posted,
    wrap_vk: &[u8],
    snark: &[u8],
    c: ReceiptStepCircuit,
    commitment: Fr,
    pair: (Fr, Fr),
    leaf: Fr,
    path: &[Fr],
    root: Fr,
)
    requires
        call_ensures(receipt, (owner, received, posted, wrap_vk, snark), c),
        call_ensures(Coin::commitment, (received,), commitment),
        call_ensures(owner_pk_to_field_pair, (&owner.pk_p,), pair),
        call_ensures(merkle_leaf, (posted.slot, &posted.entry), leaf),
        path@ == posted.path@,
        call_ensures(compute_root_from_path, (leaf, posted.slot, path), root),
    ensures
        c.owner_pk_x->0@ == pair.0@,
        c.owner_pk_y->0@ == pair.1@,
        c.coin_commitment->0@ == commitment@,
        c.board_root->0@ == root@,
        c.received_at->0 == posted.slot,
        c.received_slot->0 == posted.slot,
        c.sk_p->0@ == owner.sk_p@,
        c.coin_value->0 == received.value,
        c.coin_rand->0@ == received.rand@,
        c.wrap_vk@ == wrap_vk@,
        c.wrap_proof->0@ == snark@,
        c.wrap_public_inputs->0@ == posted.publics@,
        c.entry_nullifier->0@ == posted.entry.nullifier@,
        c.entry_output_commitments->0@ == posted.outputs@,
        c.parent_nonmembership->0@ == posted.witness@,
        c.nullifier_root_at_parent_slot->0@ == posted.nullifier_root@,
{
}

/// The anchor of a ledger is the path of the next slot, and the root that zero reaches along it,
/// which is the root of the board.
pub proof fn anchor_shows_the_board(
    ledger: &Ledger,
    r: (Vec<Fr>, Fr),
    entries: &[BoardEntry],
    path: Vec<Fr>,
    root: Fr,
)
    requires
        call_ensures(Ledger::anchor, (ledger,), r),
        entries@ == ledger.entries@,
        call_ensures(append_path_for_next, (entries,), path),
        call_ensures(board::merkle_root_of, (entries,), root),
        entries@.len() < pow2(32),
    ensures
        field::fr_values(r.0@) == field::fr_values(path@),
        r.1@ == root@,
{
    board::append_path_shows_old_and_new_root(ledger@.entries, arbitrary());
}

/// A ledger gives for a coin the witness that its accumulator gives for the coin's nullifier,
/// where that is not zero.
pub proof fn witness_is_for_the_coins_nullifier(
    ledger: &Ledger,
    spender: &Party,
    c: &Coin,
    r: Option<NonMembershipWitness>,
    commitment: Fr,
    nullifier: Fr,
    witness: NonMembershipWitness,
)
    requires
        ledger.well_formed(),
        call_ensures(Ledger::unspent, (ledger, spender, c), r),
        call_ensures(Coin::commitment, (c,), commitment),
        call_ensures(own_nullifier, (commitment, &spender.sk_p), nullifier),
        call_ensures(NullifierTree::prove_non_membership, (&ledger.spent, nullifier), witness),
    ensures
        r is Some <==> nullifier@ > 0,
        r is Some ==> r->0@ == witness@,
{
}

} // verus!
