//! Chains of spends, receipts and wraps, step by step.
//!
//! A [`Chain`] says which circuit is to be proved next and takes the proof in return. Proving
//! is up to the caller. The steps of one hop are: the spend itself, which is posted to the
//! board; the wrap of its proof; the receipt of the coin's new owner, who finds the coin by
//! scanning the entry; and the wrap of the receipt's proof, which the next spend builds on.

use vstd::prelude::*;
use vstd::arithmetic::power2::pow2;
use crate::circuit_coinproof;
use crate::circuit_coinproof::ReceiptStepCircuit;
use crate::circuit_spend;
use crate::circuit_spend::{
    GenesisSpendCircuit, SpendStepCircuit, MAX_INPUTS, MAX_OUTPUTS, RECEIPT_PUBLIC_INPUT_COUNT,
    SPEND_PUBLIC_INPUT_COUNT,
};
use crate::circuit_wrap;
use crate::circuit_wrap::{public_input_chunks, WrapCircuit};
use crate::cli;
use crate::cli::StepKind;
use crate::board;
use crate::coin;
use crate::coin::{Coin, Transaction};
use crate::constraints::EvaluatingSystem;
use crate::envelope;
use crate::envelope::{encrypt_tx, scan_entry};
use crate::field;
use crate::field::Fr;
use crate::groth16;
use crate::groth16::SynthesisError;
use crate::keys;
use crate::keys::owner_pk_to_field_pair;
use crate::ledger;
use crate::ledger::{copy_bytes, Ledger, Posted, Received};
use crate::merkle;
use crate::merkle::compute_root_from_path;
use crate::nullifier;
use crate::relations;
use crate::wallet;
use crate::wallet::{commitments_of, make_tx, pad_outputs, Party};

verus! {

/// One spend of a chain and what follows from it.
#[derive(Clone, Debug)]
pub struct Hop {
    pub spender: Party,
    /// The coin that a mint creates from nothing; other spends take the coins received so far.
    pub minted: Option<Coin>,
    /// The new coins, each with its recipient's encryption key.
    pub outputs: Vec<(Coin, [u8; 32])>,
    /// The spend is posted to the board.
    pub posts: bool,
    /// The owner of the first new coin.
    pub receiver: Party,
    /// The receiver builds a receipt.
    pub builds_receipt: bool,
}

/// The steps of a hop.
#[derive(Clone, Copy, Debug, PartialEq, Eq, Structural)]
pub enum Phase {
    Spend,
    WrapSpend,
    Receipt,
    WrapReceipt,
    Done,
}

/// A circuit to be proved.
#[derive(Clone, Debug)]
pub enum StepCircuit {
    Mint(GenesisSpendCircuit),
    Spend(SpendStepCircuit),
    WrapSpend(WrapCircuit<SPEND_PUBLIC_INPUT_COUNT>),
    Receipt(ReceiptStepCircuit),
    WrapReceipt(WrapCircuit<RECEIPT_PUBLIC_INPUT_COUNT>),
}

/// A chain in progress.
#[derive(Clone, Debug)]
pub struct Chain {
    pub ledger: Ledger,
    pub hops: Vec<Hop>,
    /// The current hop.
    pub at: usize,
    /// The current step of that hop.
    pub phase: Phase,
    /// The wrapped receipts of the coins that the next spend takes.
    pub received: Vec<Received>,
    /// The key of the wrapped receipts.
    pub wrap_vk: Vec<u8>,
    /// The key of the last proof.
    pub vk: Vec<u8>,
    /// The last proof.
    pub snark: Vec<u8>,
    /// The public values of the hop's spend.
    pub publics: [Fr; SPEND_PUBLIC_INPUT_COUNT],
    /// The hop's spend on the board.
    pub posted: Option<Posted>,
    /// The public values of the hop's receipt.
    pub receipt_publics: [Fr; RECEIPT_PUBLIC_INPUT_COUNT],
}

/// A hop has as many outputs as a spend can have, and a receipt only of a posted spend.
pub open spec fn is_sound_hop(hop: Hop) -> bool {
    &&& 0 < hop.outputs@.len() <= MAX_OUTPUTS
    &&& hop.builds_receipt ==> hop.posts
}

/// The phase at the start of a hop.
pub open spec fn first_phase(at: int, hops: int) -> Phase {
    if at < hops {
        Phase::Spend
    } else {
        Phase::Done
    }
}

/// How many proofs a hop takes.
pub open spec fn proofs_of_hop(hop: Hop) -> nat {
    if hop.builds_receipt {
        4
    } else {
        1
    }
}

/// How many proofs the hops from `at` on take.
pub open spec fn proofs_from(hops: Seq<Hop>, at: int) -> nat
    decreases hops.len() - at,
{
    if at < 0 || at >= hops.len() {
        0
    } else {
        proofs_of_hop(hops[at]) + proofs_from(hops, at + 1)
    }
}

/// How many steps of a hop precede a phase.
pub open spec fn steps_done(phase: Phase) -> nat {
    match phase {
        Phase::Spend => 0,
        Phase::WrapSpend => 1,
        Phase::Receipt => 2,
        Phase::WrapReceipt => 3,
        Phase::Done => 0,
    }
}

impl Chain {
    /// The state is one that a chain can be in.
    pub open spec fn well_formed(&self) -> bool {
        &&& self.ledger.well_formed()
        &&& self.at <= self.hops@.len()
        &&& (self.phase == Phase::Done <==> self.at == self.hops@.len())
        &&& forall|i: int| 0 <= i < self.hops@.len() ==> is_sound_hop(#[trigger] self.hops@[i])
        &&& self.phase != Phase::Spend && self.phase != Phase::Done ==> {
            &&& self.hop().builds_receipt
            &&& self.posted is Some
            &&& self.posted->0.path@.len() == merkle::TREE_DEPTH
            &&& self.posted->0.witness.sibling_path@.len() == merkle::TREE_DEPTH
        }
    }

    /// The chain has not taken a proof yet.
    pub open spec fn is_start(&self) -> bool {
        &&& self.at == 0
        &&& self.phase == first_phase(0, self.hops@.len() as int)
        &&& self.received@.len() == 0
        &&& self.ledger@ == ledger::empty_ledger()
    }

    /// The current hop.
    pub open spec fn hop(&self) -> Hop {
        self.hops@[self.at as int]
    }

    /// How many proofs are still to come.
    pub open spec fn proofs_left(&self) -> int {
        proofs_from(self.hops@, self.at as int) - steps_done(self.phase)
    }

    /// The coin whose nullifier the hop's spend publishes.
    pub open spec fn input(&self) -> Coin {
        match self.hop().minted {
            Some(c) => c,
            None => self.received@[0].coin,
        }
    }

    /// There is something to spend: a mint, or as many received coins as a spend can take. An
    /// entry publishes one nullifier, so a spend of more coins cannot be posted.
    pub open spec fn has_input(&self) -> bool {
        self.hop().minted is None ==> {
            &&& 0 < self.received@.len() <= MAX_INPUTS
            &&& self.hop().posts ==> self.received@.len() == 1
        }
    }

    /// The nullifiers of all coins that the hop spends can be shown to be absent.
    pub open spec fn has_witnesses(&self) -> bool {
        match self.hop().minted {
            Some(c) => ledger::spending_nullifier(self.hop().spender, c) > 0,
            None => forall|i: int|
                0 <= i < self.received@.len() ==> ledger::spending_nullifier(
                    self.hop().spender,
                    (#[trigger] self.received@[i]).coin,
                ) > 0,
        }
    }

    /// The public values of the hop's spend.
    pub open spec fn hop_publics(&self) -> Seq<nat> {
        circuit_spend::spend_publics(
            self.hop().spender.pk_p@,
            wallet::padded(
                coin::coin_commitments(wallet::output_coins(self.hop().outputs@)),
            ),
            ledger::anchor_root(self.ledger@),
            nullifier::accumulator_root(self.ledger@.spent),
        )
    }

    /// The board entry of the hop's spend, with its proof.
    pub open spec fn hop_entry(&self, snark: Seq<u8>) -> board::EntryView {
        let slot = self.ledger@.entries.len();
        let session_key = wallet::session_key_of(self.hop().spender.enc_sk@, slot);
        let tx = wallet::made_transaction(
            slot,
            session_key,
            seq![self.input()],
            self.hop().outputs@,
        );
        envelope::encrypted_entry(
            coin::TransactionView { spend_proof: snark, ..tx },
            self.hop().spender.sk_p@,
            wallet::output_keys(self.hop().outputs@),
            session_key,
        )
    }

    /// The public values of the receipt of the hop's first new coin.
    pub open spec fn hop_receipt_publics(&self) -> Seq<nat> {
        circuit_coinproof::receipt_publics(
            keys::coordinates(self.hop().receiver.pk_p@),
            coin::coin_commitment(self.hop().outputs@[0].0@),
            self.posted->0.root(),
            self.posted->0.slot as nat,
        )
    }

    /// What is wrong with a proof for the current step, if anything.
    pub open spec fn refusal(&self, vk: Seq<u8>, snark: Seq<u8>) -> Option<Seq<char>> {
        match self.phase {
            Phase::Spend => if !self.has_input() {
                Some("there is no coin to spend"@)
            } else if groth16::mnt4_outcome(vk, self.hop_publics(), snark) != Ok::<
                bool,
                SynthesisError,
            >(true) {
                Some("the spend proof does not verify"@)
            } else if !self.hop().posts {
                None
            } else if !(self.hop_entry(snark).nullifier > 0) {
                Some("a coin with the nullifier zero cannot be spent"@)
            } else {
                match envelope::scanned_from(
                    self.hop().receiver.enc_sk@,
                    self.hop_entry(snark),
                    0,
                ) {
                    None => Some("the receiver cannot decrypt the entry"@),
                    Some(tx) => if tx.output_commitments.contains(
                        coin::coin_commitment(self.hop().outputs@[0].0@),
                    ) {
                        None
                    } else {
                        Some("the entry does not transfer the receiver's coin"@)
                    },
                }
            },
            Phase::WrapSpend => if groth16::mnt6_outcome(
                vk,
                circuit_wrap::chunks_of(field::fr_values(self.publics@)),
                snark,
            ) != Ok::<bool, SynthesisError>(true) {
                Some("the wrapped spend proof does not verify"@)
            } else {
                None
            },
            Phase::Receipt => if groth16::mnt4_outcome(vk, self.hop_receipt_publics(), snark)
                != Ok::<bool, SynthesisError>(true) {
                Some("the receipt proof does not verify"@)
            } else {
                None
            },
            Phase::WrapReceipt => if groth16::mnt6_outcome(
                vk,
                circuit_wrap::chunks_of(field::fr_values(self.receipt_publics@)),
                snark,
            ) != Ok::<bool, SynthesisError>(true) {
                Some("the wrapped receipt proof does not verify"@)
            } else {
                None
            },
            Phase::Done => Some("the chain is complete"@),
        }
    }

    /// The state after a hop's spend was proved.
    pub open spec fn spend_done(&self, after: Chain, snark: Seq<u8>) -> bool {
        &&& field::fr_values(after.publics@) == self.hop_publics()
        &&& after.received@ == (if self.hop().minted is Some {
            self.received@
        } else {
            Seq::empty()
        })
        &&& after.wrap_vk == self.wrap_vk
        &&& after.receipt_publics == self.receipt_publics
        &&& if self.hop().posts {
            &&& after.ledger@ == (ledger::LedgerView {
                entries: self.ledger@.entries.push(self.hop_entry(snark)),
                spent: nullifier::inserted(self.ledger@.spent, self.hop_entry(snark).nullifier),
            })
            &&& after.posted is Some
            &&& after.posted->0.follows(self.ledger@)
            &&& after.posted->0.entry@ == self.hop_entry(snark)
            &&& after.posted->0.publics == after.publics
            &&& field::fr_values(after.posted->0.outputs@) == wallet::padded(
                coin::coin_commitments(wallet::output_coins(self.hop().outputs@)),
            )
        } else {
            &&& after.ledger == self.ledger
            &&& after.posted is None
        }
        &&& if self.hop().builds_receipt {
            after.at == self.at && after.phase == Phase::WrapSpend
        } else {
            after.at == self.at + 1 && after.phase == first_phase(
                after.at as int,
                self.hops@.len() as int,
            )
        }
    }

    /// The state after a hop's receipt was wrapped.
    pub open spec fn receipt_wrapped(&self, after: Chain, vk: Seq<u8>, snark: Seq<u8>) -> bool {
        &&& after.received@.len() == self.received@.len() + 1
        &&& after.received@.drop_last() == self.received@
        &&& after.received@.last().coin == self.hop().outputs@[0].0
        &&& after.received@.last().snark@ == snark
        &&& after.received@.last().publics == self.receipt_publics
        &&& after.wrap_vk@ == vk
        &&& after.at == self.at + 1
        &&& after.phase == first_phase(after.at as int, self.hops@.len() as int)
        &&& after.ledger == self.ledger
        &&& after.publics == self.publics
        &&& after.receipt_publics == self.receipt_publics
        &&& after.posted == self.posted
    }

    /// The state after a proof was taken for the current step.
    pub open spec fn advanced(&self, after: Chain, vk: Seq<u8>, snark: Seq<u8>) -> bool {
        &&& after.hops == self.hops
        &&& after.vk@ == vk
        &&& after.snark@ == snark
        &&& match self.phase {
            Phase::Spend => self.spend_done(after, snark),
            Phase::WrapSpend => after == (Chain {
                phase: Phase::Receipt,
                vk: after.vk,
                snark: after.snark,
                ..*self
            }),
            Phase::Receipt => {
                &&& field::fr_values(after.receipt_publics@) == self.hop_receipt_publics()
                &&& after == (Chain {
                    phase: Phase::WrapReceipt,
                    vk: after.vk,
                    snark: after.snark,
                    receipt_publics: after.receipt_publics,
                    ..*self
                })
            },
            Phase::WrapReceipt => self.receipt_wrapped(after, vk, snark),
            Phase::Done => false,
        }
    }

    /// The circuit is the one of the current step.
    pub open spec fn is_pending(&self, c: StepCircuit) -> bool {
        match self.phase {
            Phase::Spend => match self.hop().minted {
                Some(input) => c matches StepCircuit::Mint(circuit) && ledger::is_mint(
                    circuit,
                    self.ledger@,
                    self.hop().spender,
                    input,
                    self.hop().outputs@[0].0,
                ),
                None => c matches StepCircuit::Spend(circuit) && ledger::is_spend(
                    circuit,
                    self.ledger@,
                    self.hop().spender,
                    self.received@,
                    self.wrap_vk@,
                    wallet::output_coins(self.hop().outputs@),
                ),
            },
            Phase::WrapSpend => c matches StepCircuit::WrapSpend(circuit) && {
                &&& circuit.inner_vk@ == self.vk@
                &&& circuit.inner_proof is Some
                &&& circuit.inner_proof->0@ == self.snark@
                &&& circuit.inner_public_inputs == Some(self.publics)
            },
            Phase::Receipt => c matches StepCircuit::Receipt(circuit) && ledger::is_receipt(
                circuit,
                self.hop().receiver,
                self.hop().outputs@[0].0,
                self.posted->0,
                self.vk@,
                self.snark@,
            ),
            Phase::WrapReceipt => c matches StepCircuit::WrapReceipt(circuit) && {
                &&& circuit.inner_vk@ == self.vk@
                &&& circuit.inner_proof is Some
                &&& circuit.inner_proof->0@ == self.snark@
                &&& circuit.inner_public_inputs == Some(self.receipt_publics)
            },
            Phase::Done => false,
        }
    }

    /// The circuit's paths reach the root, as its constraints ask for.
    pub open spec fn paths_reach_root(c: StepCircuit) -> bool {
        match c {
            StepCircuit::Mint(circuit) => circuit_spend::paths_reach_root(
                circuit.append_path,
                circuit.own_nullifier_nonmembership@,
            ),
            StepCircuit::Spend(circuit) => circuit_spend::paths_reach_root(
                circuit.append_path,
                circuit.own_nullifier_nonmembership@,
            ),
            StepCircuit::Receipt(circuit) => circuit.paths_reach_root(),
            _ => true,
        }
    }

    /// The first new coin of the hop is encrypted to its receiver.
    pub open spec fn receiver_can_read(&self) -> bool {
        self.hop().outputs@[0].1@ == envelope::x25519_public(self.hop().receiver.enc_sk@)
    }

    /// The proof verifies for the public values of the current step.
    pub open spec fn verifies(&self, vk: Seq<u8>, snark: Seq<u8>) -> bool {
        let outcome = match self.phase {
            Phase::Spend => groth16::mnt4_outcome(vk, self.hop_publics(), snark),
            Phase::WrapSpend => groth16::mnt6_outcome(
                vk,
                circuit_wrap::chunks_of(field::fr_values(self.publics@)),
                snark,
            ),
            Phase::Receipt => groth16::mnt4_outcome(vk, self.hop_receipt_publics(), snark),
            Phase::WrapReceipt => groth16::mnt6_outcome(
                vk,
                circuit_wrap::chunks_of(field::fr_values(self.receipt_publics@)),
                snark,
            ),
            Phase::Done => Ok(false),
        };
        outcome == Ok::<bool, SynthesisError>(true)
    }

    /// The number of entries that is shown for the current step: a spend counts its own.
    pub open spec fn shown_board_size(&self) -> int {
        self.ledger@.entries.len() + if self.phase == Phase::Spend {
            1int
        } else {
            0int
        }
    }

    /// There is a circuit for the current step.
    pub open spec fn has_pending(&self) -> bool {
        match self.phase {
            Phase::Spend => {
                &&& self.has_input()
                &&& self.has_witnesses()
                &&& self.hop().minted is Some ==> self.hop().outputs@.len() == 1
            },
            Phase::Done => false,
            _ => true,
        }
    }
}

/// The coins among outputs.
fn coins_of(outputs: &[(Coin, [u8; 32])]) -> (r: Vec<Coin>)
    ensures
        r@ == wallet::output_coins(outputs@),
{
    let mut out: Vec<Coin> = Vec::new();
    let mut i: usize = 0;
    while i < outputs.len()
        invariant
            i <= outputs@.len(),
            out@.len() == i,
            forall|j: int| 0 <= j < i ==> #[trigger] out@[j] == outputs@[j].0,
        decreases outputs@.len() - i,
    {
        out.push(outputs[i].0);
        i += 1;
    }
    assert(out@ =~= wallet::output_coins(outputs@));
    out
}

/// Six elements as an array.
fn as_spend_publics(values: &Vec<Fr>) -> (r: [Fr; SPEND_PUBLIC_INPUT_COUNT])
    requires
        values@.len() == SPEND_PUBLIC_INPUT_COUNT,
    ensures
        field::fr_values(r@) == field::fr_values(values@),
{
    let r = [values[0], values[1], values[2], values[3], values[4], values[5]];
    assert(field::fr_values(r@) =~= field::fr_values(values@));
    r
}

/// Five elements as an array.
fn as_receipt_publics(values: &Vec<Fr>) -> (r: [Fr; RECEIPT_PUBLIC_INPUT_COUNT])
    requires
        values@.len() == RECEIPT_PUBLIC_INPUT_COUNT,
    ensures
        field::fr_values(r@) == field::fr_values(values@),
{
    let r = [values[0], values[1], values[2], values[3], values[4]];
    assert(field::fr_values(r@) =~= field::fr_values(values@));
    r
}

/// Whether a verification succeeded.
fn is_accepted(outcome: Result<bool, SynthesisError>) -> (r: bool)
    ensures
        r == (outcome == Ok::<bool, SynthesisError>(true)),
{
    match outcome {
        Ok(verdict) => verdict,
        Err(_) => false,
    }
}

impl Chain {
    /// A chain at its start, unless a hop is unsound.
    pub fn new(hops: Vec<Hop>) -> (r: Option<Chain>)
        ensures
            r is Some == (forall|i: int| 0 <= i < hops@.len() ==> is_sound_hop(#[trigger] hops@[i])),
            r matches Some(chain) ==> {
                &&& chain.well_formed()
                &&& chain.hops == hops
                &&& chain.is_start()
                &&& chain.proofs_left() == proofs_from(hops@, 0)
            },
    {
        let mut i: usize = 0;
        while i < hops.len()
            invariant
                i <= hops@.len(),
                forall|j: int| 0 <= j < i ==> is_sound_hop(#[trigger] hops@[j]),
            decreases hops@.len() - i,
        {
            let hop = &hops[i];
            if hop.outputs.len() == 0 || hop.outputs.len() > MAX_OUTPUTS || (hop.builds_receipt
                && !hop.posts) {
                assert(!is_sound_hop(hops@[i as int]));
                return None;
            }
            i += 1;
        }
        let zero = Fr::from(0u64);
        let phase = if hops.len() > 0 {
            Phase::Spend
        } else {
            Phase::Done
        };
        Some(
            Chain {
                ledger: Ledger::new(),
                hops,
                at: 0,
                phase,
                received: Vec::new(),
                wrap_vk: Vec::new(),
                vk: Vec::new(),
                snark: Vec::new(),
                publics: [zero, zero, zero, zero, zero, zero],
                posted: None,
                receipt_publics: [zero, zero, zero, zero, zero],
            },
        )
    }

    /// The circuit that is to be proved next. There is none at the end of the chain, where
    /// there is no coin to spend or one with the nullifier zero, and for a mint of more than
    /// one coin.
    pub fn pending(&self) -> (r: Option<StepCircuit>)
        requires
            self.well_formed(),
        ensures
            r is Some == self.has_pending(),
            r matches Some(c) ==> self.is_pending(c) && Chain::paths_reach_root(c),
    {
        match self.phase {
            Phase::Done => None,
            Phase::Spend => {
                let hop = &self.hops[self.at];
                match &hop.minted {
                    Some(input) => {
                        if hop.outputs.len() != 1 {
                            return None;
                        }
                        match self.ledger.mint(&hop.spender, input, &hop.outputs[0].0) {
                            Some(circuit) => Some(StepCircuit::Mint(circuit)),
                            None => None,
                        }
                    },
                    None => {
                        if !self.can_spend() {
                            return None;
                        }
                        let outputs = coins_of(hop.outputs.as_slice());
                        match self.ledger.spend(
                            &hop.spender,
                            self.received.as_slice(),
                            self.wrap_vk.as_slice(),
                            outputs.as_slice(),
                        ) {
                            Some(circuit) => Some(StepCircuit::Spend(circuit)),
                            None => None,
                        }
                    },
                }
            },
            Phase::WrapSpend => Some(
                StepCircuit::WrapSpend(
                    WrapCircuit {
                        inner_vk: copy_bytes(self.vk.as_slice()),
                        inner_proof: Some(copy_bytes(self.snark.as_slice())),
                        inner_public_inputs: Some(self.publics),
                    },
                ),
            ),
            Phase::Receipt => {
                let hop = &self.hops[self.at];
                match &self.posted {
                    Some(posted) => Some(
                        StepCircuit::Receipt(
                            ledger::receipt(
                                &hop.receiver,
                                &hop.outputs[0].0,
                                posted,
                                self.vk.as_slice(),
                                self.snark.as_slice(),
                            ),
                        ),
                    ),
                    None => None,
                }
            },
            Phase::WrapReceipt => Some(
                StepCircuit::WrapReceipt(
                    WrapCircuit {
                        inner_vk: copy_bytes(self.vk.as_slice()),
                        inner_proof: Some(copy_bytes(self.snark.as_slice())),
                        inner_public_inputs: Some(self.receipt_publics),
                    },
                ),
            ),
        }
    }

    /// Whether there is something to spend.
    fn can_spend(&self) -> (r: bool)
        requires
            self.at < self.hops@.len(),
        ensures
            r == self.has_input(),
    {
        let hop = &self.hops[self.at];
        hop.minted.is_some() || (0 < self.received.len() && self.received.len() <= MAX_INPUTS && (
        !hop.posts || self.received.len() == 1))
    }

    /// The public outputs of the hop's spend, and all its public values.
    fn spend_values(&self) -> (r: ([Fr; MAX_OUTPUTS], [Fr; SPEND_PUBLIC_INPUT_COUNT]))
        requires
            self.well_formed(),
            self.at < self.hops@.len(),
        ensures
            field::fr_values(r.0@) == wallet::padded(
                coin::coin_commitments(wallet::output_coins(self.hop().outputs@)),
            ),
            field::fr_values(r.1@) == self.hop_publics(),
    {
        let hop = &self.hops[self.at];
        let coins = coins_of(hop.outputs.as_slice());
        let commitments = commitments_of(coins.as_slice());
        let outputs = pad_outputs(commitments.as_slice());
        let (_path, root) = self.ledger.anchor();
        let publics = GenesisSpendCircuit::public_inputs(
            hop.spender.pk_p,
            outputs,
            root,
            self.ledger.spent.root(),
        );
        (outputs, as_spend_publics(&publics))
    }

    /// The board entry of the hop's spend, with its proof.
    fn make_entry(&self, snark: &[u8]) -> (r: board::BoardEntry)
        requires
            self.well_formed(),
            self.at < self.hops@.len(),
            self.has_input(),
        ensures
            r@ == self.hop_entry(snark@),
            self.receiver_can_read() ==> {
                let found = envelope::scanned_from(self.hop().receiver.enc_sk@, r@, 0);
                &&& found is Some
                &&& found->0.output_commitments.contains(
                    coin::coin_commitment(self.hop().outputs@[0].0@),
                )
            },
    {
        let hop = &self.hops[self.at];
        let input = match &hop.minted {
            Some(c) => *c,
            None => self.received[0].coin,
        };
        let inputs: [Coin; 1] = [input];
        let (tx, session_key, recipients) = make_tx(
            self.ledger.entries.len() as u64,
            hop.spender.enc_sk,
            &inputs,
            hop.outputs.as_slice(),
        );
        let proven = Transaction { spend_proof: copy_bytes(snark), ..tx };
        proof {
            assert(inputs@ =~= seq![self.input()]);
            assert(proven@ =~= (coin::TransactionView { spend_proof: snark@, ..tx@ }));
            assert(proven@.input_commitments.len() == 1);
        }
        let entry = encrypt_tx(&proven, &hop.spender.sk_p, recipients.as_slice(), session_key);
        proof {
            if self.receiver_can_read() {
                let secret = hop.receiver.enc_sk@;
                assert(board::key_seqs(recipients@)[0] == recipients@[0]@);
                assert(wallet::output_keys(hop.outputs@)[0] == hop.outputs@[0].1@);
                assert(envelope::unwrapped_key(secret, entry@, 0) == session_key@);
                envelope::recipient_finds_the_transaction(
                    proven@,
                    session_key@,
                    secret,
                    entry@,
                    0,
                );
                assert(proven@.output_commitments[0] == coin::coin_commitment(
                    wallet::output_coins(hop.outputs@)[0]@,
                ));
            }
        }
        entry
    }

    /// Take the proof of a hop's spend.
    fn take_spend(&mut self, vk: Vec<u8>, snark: Vec<u8>) -> (r: Result<(), &'static str>)
        requires
            old(self).well_formed(),
            old(self).phase == Phase::Spend,
        ensures
            final(self).well_formed(),
            match r {
                Ok(_) => old(self).refusal(vk@, snark@) is None && old(self).advanced(
                    *final(self),
                    vk@,
                    snark@,
                ),
                Err(message) => old(self).refusal(vk@, snark@) == Some(message@) && *final(self)
                    == *old(self),
            },
            old(self).has_pending() && old(self).verifies(vk@, snark@)
                && old(self).receiver_can_read() ==> r is Ok,
    {
        let count: usize = self.hops.len();
        if !self.can_spend() {
            return Err("there is no coin to spend");
        }
        let (outputs, publics) = self.spend_values();
        if !is_accepted(circuit_spend::verify(vk.as_slice(), &publics, snark.as_slice())) {
            return Err("the spend proof does not verify");
        }
        let posts = self.hops[self.at].posts;
        let builds_receipt = self.hops[self.at].builds_receipt;
        let is_mint = self.hops[self.at].minted.is_some();
        let mut posted: Option<Posted> = None;
        if posts {
            let entry = self.make_entry(snark.as_slice());
            if !Fr::from(0u64).less_than(&entry.nullifier) {
                return Err("a coin with the nullifier zero cannot be spent");
            }
            let received = self.hops[self.at].outputs[0].0.commitment();
            match scan_entry(&self.hops[self.at].receiver.enc_sk, &entry) {
                None => {
                    return Err("the receiver cannot decrypt the entry");
                },
                Some(tx) => {
                    if !tx.receives_coin(&received) {
                        return Err("the entry does not transfer the receiver's coin");
                    }
                },
            }
            posted = self.ledger.post(entry, publics, outputs);
        }
        self.posted = posted;
        self.publics = publics;
        self.vk = vk;
        self.snark = snark;
        if !is_mint {
            self.received = Vec::new();
        }
        if builds_receipt {
            self.phase = Phase::WrapSpend;
        } else {
            self.at = self.at + 1;
            self.phase = if self.at < count {
                Phase::Spend
            } else {
                Phase::Done
            };
        }
        Ok(())
    }

    /// Take the wrap of a hop's spend.
    fn take_wrapped_spend(&mut self, vk: Vec<u8>, snark: Vec<u8>) -> (r: Result<(), &'static str>)
        requires
            old(self).well_formed(),
            old(self).phase == Phase::WrapSpend,
        ensures
            final(self).well_formed(),
            match r {
                Ok(_) => old(self).refusal(vk@, snark@) is None && old(self).advanced(
                    *final(self),
                    vk@,
                    snark@,
                ),
                Err(message) => old(self).refusal(vk@, snark@) == Some(message@) && *final(self)
                    == *old(self),
            },
    {
        let chunks = public_input_chunks(&self.publics);
        if !is_accepted(
            circuit_wrap::verify(vk.as_slice(), chunks.as_slice(), snark.as_slice()),
        ) {
            return Err("the wrapped spend proof does not verify");
        }
        self.vk = vk;
        self.snark = snark;
        self.phase = Phase::Receipt;
        Ok(())
    }

    /// Take the proof of a hop's receipt.
    fn take_receipt(&mut self, vk: Vec<u8>, snark: Vec<u8>) -> (r: Result<(), &'static str>)
        requires
            old(self).well_formed(),
            old(self).phase == Phase::Receipt,
        ensures
            final(self).well_formed(),
            match r {
                Ok(_) => old(self).refusal(vk@, snark@) is None && old(self).advanced(
                    *final(self),
                    vk@,
                    snark@,
                ),
                Err(message) => old(self).refusal(vk@, snark@) == Some(message@) && *final(self)
                    == *old(self),
            },
    {
        let publics = self.receipt_values();
        if !is_accepted(circuit_coinproof::verify(vk.as_slice(), &publics, snark.as_slice())) {
            return Err("the receipt proof does not verify");
        }
        self.receipt_publics = publics;
        self.vk = vk;
        self.snark = snark;
        self.phase = Phase::WrapReceipt;
        Ok(())
    }

    /// Take the wrap of a hop's receipt.
    fn take_wrapped_receipt(&mut self, vk: Vec<u8>, snark: Vec<u8>) -> (r: Result<
        (),
        &'static str,
    >)
        requires
            old(self).well_formed(),
            old(self).phase == Phase::WrapReceipt,
        ensures
            final(self).well_formed(),
            match r {
                Ok(_) => old(self).refusal(vk@, snark@) is None && old(self).advanced(
                    *final(self),
                    vk@,
                    snark@,
                ),
                Err(message) => old(self).refusal(vk@, snark@) == Some(message@) && *final(self)
                    == *old(self),
            },
    {
        let count: usize = self.hops.len();
        let chunks = public_input_chunks(&self.receipt_publics);
        if !is_accepted(
            circuit_wrap::verify(vk.as_slice(), chunks.as_slice(), snark.as_slice()),
        ) {
            return Err("the wrapped receipt proof does not verify");
        }
        let received = Received {
            coin: self.hops[self.at].outputs[0].0,
            snark: copy_bytes(snark.as_slice()),
            publics: self.receipt_publics,
        };
        self.received.push(received);
        self.wrap_vk = copy_bytes(vk.as_slice());
        self.vk = vk;
        self.snark = snark;
        self.at = self.at + 1;
        self.phase = if self.at < count {
            Phase::Spend
        } else {
            Phase::Done
        };
        assert(self.received@.drop_last() =~= old(self).received@);
        Ok(())
    }

    /// Take the proof of the current step under its key. A proof that does not verify is
    /// refused and changes nothing. One that verifies for a pending step is taken, where the
    /// hop's first coin is encrypted to its receiver.
    pub fn proved(&mut self, vk: Vec<u8>, snark: Vec<u8>) -> (r: Result<(), &'static str>)
        requires
            old(self).well_formed(),
        ensures
            final(self).well_formed(),
            match r {
                Ok(_) => old(self).refusal(vk@, snark@) is None && old(self).advanced(
                    *final(self),
                    vk@,
                    snark@,
                ),
                Err(message) => old(self).refusal(vk@, snark@) == Some(message@) && *final(self)
                    == *old(self),
            },
            old(self).has_pending() && old(self).verifies(vk@, snark@)
                && old(self).receiver_can_read() ==> r is Ok,
    {
        match self.phase {
            Phase::Done => Err("the chain is complete"),
            Phase::Spend => self.take_spend(vk, snark),
            Phase::WrapSpend => self.take_wrapped_spend(vk, snark),
            Phase::Receipt => self.take_receipt(vk, snark),
            Phase::WrapReceipt => self.take_wrapped_receipt(vk, snark),
        }
    }

    /// The number of entries that is shown for the current step: a spend counts its own.
    pub fn row_board_size(&self) -> (r: usize)
        requires
            self.ledger.entries@.len() < usize::MAX,
        ensures
            r == self.shown_board_size(),
            r == self.ledger.entries@.len() + (if self.phase is Spend {
                1int
            } else {
                0int
            }),
    {
        if self.phase == Phase::Spend {
            self.ledger.entries.len() + 1
        } else {
            self.ledger.entries.len()
        }
    }

    /// The public values of the receipt of the hop's first new coin.
    fn receipt_values(&self) -> (r: [Fr; RECEIPT_PUBLIC_INPUT_COUNT])
        requires
            self.well_formed(),
            self.phase == Phase::Receipt,
        ensures
            field::fr_values(r@) == self.hop_receipt_publics(),
    {
        let zero = Fr::from(0u64);
        match &self.posted {
            Some(posted) => {
                let hop = &self.hops[self.at];
                let (x, y) = owner_pk_to_field_pair(&hop.receiver.pk_p);
                let leaf = board::merkle_leaf(posted.slot, &posted.entry);
                let root = compute_root_from_path(leaf, posted.slot, posted.path.as_slice());
                let publics = ReceiptStepCircuit::public_inputs(
                    x,
                    y,
                    hop.outputs[0].0.commitment(),
                    root,
                    posted.slot as u64,
                );
                as_receipt_publics(&publics)
            },
            None => [zero, zero, zero, zero, zero],
        }
    }
}

/// Every proof that a chain takes brings it one step closer to its end.
pub proof fn each_proof_is_progress(before: Chain, after: Chain, vk: Seq<u8>, snark: Seq<u8>)
    requires
        before.well_formed(),
        after.well_formed(),
        before.advanced(after, vk, snark),
    ensures
        after.proofs_left() == before.proofs_left() - 1,
{
    assert(proofs_from(before.hops@, before.at as int) == proofs_of_hop(before.hop())
        + proofs_from(before.hops@, before.at + 1));
}

/// A chain without proofs left is at its end, and only such a chain.
pub proof fn no_proofs_left_means_done(chain: Chain)
    requires
        chain.well_formed(),
    ensures
        chain.proofs_left() == 0 <==> chain.phase == Phase::Done,
        chain.proofs_left() >= 0,
{
    if chain.phase != Phase::Done {
        assert(proofs_from(chain.hops@, chain.at as int) == proofs_of_hop(chain.hop())
            + proofs_from(chain.hops@, chain.at + 1));
    }
}

/// A posted spend publishes the nullifier of its input, which was not published before where
/// its circuit's witness is honest, and puts its entry at the next slot.
pub proof fn posted_spend_is_on_the_board(before: Chain, after: Chain, vk: Seq<u8>, snark: Seq<u8>)
    requires
        before.well_formed(),
        before.phase == Phase::Spend,
        before.hop().posts,
        before.ledger@.entries.len() < pow2(32),
        before.advanced(after, vk, snark),
    ensures
        nullifier::has_value(
            after.ledger@.spent,
            ledger::spending_nullifier(before.hop().spender, before.input()),
        ),
        board::opens_to(
            board::board_root(after.ledger@.entries),
            before.ledger@.entries.len(),
            before.hop_entry(snark),
            field::fr_values(after.posted->0.path@),
        ),
{
    let entry = before.hop_entry(snark);
    assert(coin::coin_commitments(seq![before.input()])[0] == coin::coin_commitment(
        before.input()@,
    ));
    nullifier::insertion_adds_exactly_the_value(
        before.ledger@.spent,
        entry.nullifier,
        entry.nullifier,
    );
    board::append_path_shows_old_and_new_root(before.ledger@.entries, entry);
}

/// Carry out the check of a mint without proving anything: build its witness on an empty
/// ledger and evaluate its constraints. There is no witness for a coin with the nullifier
/// zero.
pub fn check_mint(minter: &Party, input: &Coin, output: &Coin) -> (r: Option<bool>)
    ensures
        r is Some == (ledger::spending_nullifier(*minter, *input) > 0),
        r matches Some(satisfied) ==> exists|c: GenesisSpendCircuit|
            {
                &&& ledger::is_mint(c, ledger::empty_ledger(), *minter, *input, *output)
                &&& satisfied == #[trigger] c.relation()
            },
{
    let ledger = Ledger::new();
    assert(ledger@ =~= ledger::empty_ledger());
    match ledger.mint(minter, input, output) {
        Some(circuit) => {
            let mut cs = EvaluatingSystem::new();
            let ghost c = circuit;
            let outcome = circuit.generate_constraints(&mut cs);
            assert(outcome is Ok);
            let satisfied = cs.is_satisfied();
            assert(satisfied == c.relation());
            Some(satisfied)
        },
        None => None,
    }
}

/// A coin from a seed, for the owner of a secret.
pub open spec fn seeded_coin(seed: int, value: nat, owner_sk: nat) -> coin::CoinView {
    coin::CoinView { value, rand: (seed + 1000) as nat, owner_pk: keys::owner_point(owner_sk) }
}

/// A single new coin and its recipient.
fn one_output(c: Coin, recipient: &Party) -> (r: Vec<(Coin, [u8; 32])>)
    ensures
        r@ == seq![(c, recipient.enc_pk)],
{
    let mut out: Vec<(Coin, [u8; 32])> = Vec::new();
    out.push((c, recipient.enc_pk));
    assert(out@ =~= seq![(c, recipient.enc_pk)]);
    out
}

/// The values of a hop's new coins add up to the given sum.
pub open spec fn pays_out(hop: Hop, sum: nat) -> bool {
    relations::total_value(wallet::output_coins(hop.outputs@)) == sum
}

/// A new coin of a hop, encrypted to its recipient.
pub open spec fn pays(hop: Hop, i: int, c: coin::CoinView, recipient: Party) -> bool {
    &&& hop.outputs@[i].0@ == c
    &&& hop.outputs@[i].1@ == recipient.enc_pk@
}

/// The chain of the demonstration: a mint of 100 units to Alice, who spends them as 40 to Bob
/// and 60 in change to herself; Bob spends his 40 to Carol. All spends are posted. Alice and
/// Bob build receipts, Carol does not.
pub open spec fn is_demo_plan(hops: Seq<Hop>) -> bool {
    &&& hops.len() == 3
    &&& forall|i: int| 0 <= i < 3 ==> is_sound_hop(#[trigger] hops[i]) && hops[i].posts
    &&& hops[0].spender.is_genesis()
    &&& hops[0].minted is Some
    &&& hops[0].minted->0@ == seeded_coin(0xA1, 100, 1)
    &&& hops[0].receiver.is_seeded("Alice"@, 1)
    &&& hops[0].outputs@.len() == 1
    &&& pays(hops[0], 0, seeded_coin(0xA2, 100, 101), hops[0].receiver)
    &&& pays_out(hops[0], 100)
    &&& hops[0].builds_receipt
    &&& hops[1].spender == hops[0].receiver
    &&& hops[1].minted is None
    &&& hops[1].receiver.is_seeded("Bob"@, 2)
    &&& hops[1].outputs@.len() == 2
    &&& pays(hops[1], 0, seeded_coin(0xB1, 40, 102), hops[1].receiver)
    &&& pays(hops[1], 1, seeded_coin(0xB2, 60, 101), hops[1].spender)
    &&& pays_out(hops[1], 100)
    &&& hops[1].builds_receipt
    &&& hops[2].spender == hops[1].receiver
    &&& hops[2].minted is None
    &&& hops[2].receiver.is_seeded("Carol"@, 3)
    &&& hops[2].outputs@.len() == 1
    &&& pays(hops[2], 0, seeded_coin(0xC1, 40, 103), hops[2].receiver)
    &&& pays_out(hops[2], 40)
    &&& !hops[2].builds_receipt
}

/// The chain of the demonstration.
pub fn demo_hops() -> (r: Vec<Hop>)
    ensures
        is_demo_plan(r@),
        proofs_from(r@, 0) == 9,
{
    let genesis = Party::genesis();
    let alice = Party::new("Alice", 1);
    let bob = Party::new("Bob", 2);
    let carol = Party::new("Carol", 3);
    let mut change = one_output(wallet::coin(0xB1, 40, bob.pk_p), &bob);
    change.push((wallet::coin(0xB2, 60, alice.pk_p), alice.enc_pk));
    let first = Hop {
        spender: genesis,
        minted: Some(wallet::coin(0xA1, 100, genesis.pk_p)),
        outputs: one_output(wallet::coin(0xA2, 100, alice.pk_p), &alice),
        posts: true,
        receiver: alice,
        builds_receipt: true,
    };
    let second = Hop {
        spender: alice,
        minted: None,
        outputs: change,
        posts: true,
        receiver: bob,
        builds_receipt: true,
    };
    let third = Hop {
        spender: bob,
        minted: None,
        outputs: one_output(wallet::coin(0xC1, 40, carol.pk_p), &carol),
        posts: true,
        receiver: carol,
        builds_receipt: false,
    };
    proof {
        lemma_one_output_total(first.outputs@);
        lemma_two_outputs_total(second.outputs@);
        lemma_one_output_total(third.outputs@);
    }
    let mut hops: Vec<Hop> = Vec::new();
    hops.push(first);
    hops.push(second);
    hops.push(third);
    proof {
        reveal_with_fuel(proofs_from, 4);
    }
    hops
}

/// The chain that measures a spend with every slot in use: two mints to Alice, of 60 and 40
/// units, for which she builds receipts and which she spends at once as 40 to Bob and 60 in
/// change. That spend is not posted: an entry publishes one nullifier, and nothing follows
/// from it here.
pub open spec fn is_grid_cell_plan(hops: Seq<Hop>) -> bool {
    &&& hops.len() == 3
    &&& forall|i: int| 0 <= i < 3 ==> is_sound_hop(#[trigger] hops[i])
    &&& hops[0].spender.is_genesis()
    &&& hops[0].minted is Some
    &&& hops[0].minted->0@ == seeded_coin(0xA0, 60, 1)
    &&& hops[0].receiver.is_seeded("Alice"@, 1)
    &&& hops[0].outputs@.len() == 1
    &&& pays(hops[0], 0, seeded_coin(0xB0, 60, 101), hops[0].receiver)
    &&& pays_out(hops[0], 60)
    &&& hops[0].posts
    &&& hops[0].builds_receipt
    &&& hops[1].spender == hops[0].spender
    &&& hops[1].minted is Some
    &&& hops[1].minted->0@ == seeded_coin(0xA1, 40, 1)
    &&& hops[1].receiver == hops[0].receiver
    &&& hops[1].outputs@.len() == 1
    &&& pays(hops[1], 0, seeded_coin(0xB1, 40, 101), hops[1].receiver)
    &&& pays_out(hops[1], 40)
    &&& hops[1].posts
    &&& hops[1].builds_receipt
    &&& hops[2].spender == hops[0].receiver
    &&& hops[2].minted is None
    &&& hops[2].receiver.is_seeded("Bob"@, 2)
    &&& hops[2].outputs@.len() == 2
    &&& pays(hops[2], 0, seeded_coin(0xC0, 40, 102), hops[2].receiver)
    &&& pays(hops[2], 1, seeded_coin(0xC1, 60, 101), hops[2].spender)
    &&& pays_out(hops[2], 100)
    &&& !hops[2].posts
    &&& !hops[2].builds_receipt
}

/// The chain that measures a spend with every slot in use.
pub fn grid_cell_hops() -> (r: Vec<Hop>)
    ensures
        is_grid_cell_plan(r@),
        proofs_from(r@, 0) == 9,
{
    let genesis = Party::genesis();
    let alice = Party::new("Alice", 1);
    let bob = Party::new("Bob", 2);
    let first = Hop {
        spender: genesis,
        minted: Some(wallet::coin(0xA0, 60, genesis.pk_p)),
        outputs: one_output(wallet::coin(0xB0, 60, alice.pk_p), &alice),
        posts: true,
        receiver: alice,
        builds_receipt: true,
    };
    let second = Hop {
        spender: genesis,
        minted: Some(wallet::coin(0xA1, 40, genesis.pk_p)),
        outputs: one_output(wallet::coin(0xB1, 40, alice.pk_p), &alice),
        posts: true,
        receiver: alice,
        builds_receipt: true,
    };
    let mut change = one_output(wallet::coin(0xC0, 40, bob.pk_p), &bob);
    change.push((wallet::coin(0xC1, 60, alice.pk_p), alice.enc_pk));
    let third = Hop {
        spender: alice,
        minted: None,
        outputs: change,
        posts: false,
        receiver: bob,
        builds_receipt: false,
    };
    proof {
        lemma_one_output_total(first.outputs@);
        lemma_one_output_total(second.outputs@);
        lemma_two_outputs_total(third.outputs@);
    }
    let mut hops: Vec<Hop> = Vec::new();
    hops.push(first);
    hops.push(second);
    hops.push(third);
    proof {
        reveal_with_fuel(proofs_from, 4);
    }
    hops
}

/// The sum of a single output.
proof fn lemma_one_output_total(outputs: Seq<(Coin, [u8; 32])>)
    requires
        outputs.len() == 1,
    ensures
        relations::total_value(wallet::output_coins(outputs)) == outputs[0].0.value,
{
    reveal_with_fuel(relations::total_value, 2);
    assert(wallet::output_coins(outputs).drop_last().len() == 0);
}

/// The sum of two outputs.
proof fn lemma_two_outputs_total(outputs: Seq<(Coin, [u8; 32])>)
    requires
        outputs.len() == 2,
    ensures
        relations::total_value(wallet::output_coins(outputs)) == outputs[0].0.value
            + outputs[1].0.value,
{
    reveal_with_fuel(relations::total_value, 3);
    let coins = wallet::output_coins(outputs);
    assert(coins.drop_last().drop_last().len() == 0);
}

/// The steps of a hop that builds a receipt, from the given spend on.
pub open spec fn hop_kinds(spend: StepKind) -> Seq<StepKind> {
    seq![spend, StepKind::WrapSpend, StepKind::Receipt, StepKind::WrapReceipt]
}

/// The kinds of proofs of the demonstration, in order.
pub open spec fn demo_kinds() -> Seq<StepKind> {
    hop_kinds(StepKind::Genesis) + hop_kinds(StepKind::SpendNonGenesis) + seq![
        StepKind::SpendNonGenesis,
    ]
}

/// The kinds of proofs of the measurement, in order.
pub open spec fn grid_cell_kinds() -> Seq<StepKind> {
    hop_kinds(StepKind::Genesis) + hop_kinds(StepKind::Genesis) + seq![StepKind::SpendNonGenesis]
}

/// The number of entries that is shown for the step at a place of either chain: 1, 1, 1, 1, 2,
/// 2, 2, 2, 3.
pub open spec fn row_size(i: int) -> int {
    i / 4 + 1
}

/// The phase before the step at a place of either chain.
pub open spec fn phase_at(i: int) -> Phase {
    if i == 9 {
        Phase::Done
    } else if i % 4 == 0 {
        Phase::Spend
    } else if i % 4 == 1 {
        Phase::WrapSpend
    } else if i % 4 == 2 {
        Phase::Receipt
    } else {
        Phase::WrapReceipt
    }
}

/// One proof brought a chain from one state to the next.
pub open spec fn takes_step(
    states: Seq<Chain>,
    vks: Seq<Seq<u8>>,
    snarks: Seq<Seq<u8>>,
    i: int,
) -> bool {
    states[i].advanced(states[i + 1], vks[i], snarks[i])
}

/// The states that a chain goes through from its start, with the proofs that it takes.
pub open spec fn is_run(states: Seq<Chain>, vks: Seq<Seq<u8>>, snarks: Seq<Seq<u8>>) -> bool {
    &&& states.len() > 0
    &&& states[0].is_start()
    &&& forall|i: int| 0 <= i < states.len() ==> (#[trigger] states[i]).well_formed()
    &&& forall|i: int|
        0 <= i < states.len() - 1 ==> #[trigger] takes_step(states, vks, snarks, i)
}

/// The state before the step at a place of the demonstration.
spec fn is_demo_state(chain: Chain, i: int) -> bool {
    &&& is_demo_plan(chain.hops@)
    &&& 0 <= i <= 9
    &&& chain.phase == phase_at(i)
    &&& chain.at == (if i == 9 {
        3
    } else {
        i / 4
    })
    &&& chain.ledger@.entries.len() == (i + 3) / 4
    &&& chain.received@.len() == (if i == 4 || i == 8 {
        1int
    } else {
        0int
    })
    &&& (i == 4 || i == 8) ==> chain.received@[0].coin == chain.hops@[i / 4 - 1].outputs@[0].0
}

proof fn lemma_demo_step(before: Chain, after: Chain, vk: Seq<u8>, snark: Seq<u8>, i: int)
    requires
        is_demo_state(before, i),
        before.advanced(after, vk, snark),
    ensures
        i < 9,
        is_demo_state(after, i + 1),
{
    if i % 4 == 3 {
        assert(after.received@.last() == after.received@[0]);
    }
}

proof fn lemma_demo_states(
    states: Seq<Chain>,
    vks: Seq<Seq<u8>>,
    snarks: Seq<Seq<u8>>,
    i: int,
)
    requires
        is_run(states, vks, snarks),
        is_demo_plan(states[0].hops@),
        0 <= i < states.len(),
    ensures
        is_demo_state(states[i], i),
    decreases i,
{
    if i > 0 {
        lemma_demo_states(states, vks, snarks, i - 1);
        assert(takes_step(states, vks, snarks, i - 1));
        lemma_demo_step(states[i - 1], states[i], vks[i - 1], snarks[i - 1], i - 1);
    }
}

/// The demonstration takes nine proofs in order: the mint, its wrap, Alice's receipt and its
/// wrap; Alice's spend, its wrap, Bob's receipt and its wrap; Bob's spend. The board shown
/// with them has 1, 1, 1, 1, 2, 2, 2, 2 and 3 entries. Each spend takes the coin that the hop
/// before it paid its spender, each receiver can read what they are paid, and the chain is at
/// its end after the ninth proof and not before.
pub proof fn demonstration_runs_in_order(
    states: Seq<Chain>,
    vks: Seq<Seq<u8>>,
    snarks: Seq<Seq<u8>>,
)
    requires
        is_run(states, vks, snarks),
        is_demo_plan(states[0].hops@),
    ensures
        demo_kinds().len() == 9,
        states.len() <= 10,
        forall|i: int|
            0 <= i < states.len() ==> ((#[trigger] states[i]).phase == Phase::Done <==> i == 9),
        forall|i: int, c: StepCircuit|
            0 <= i < states.len() && #[trigger] states[i].is_pending(c) ==> i < 9 && cli::kind_of(c)
                == demo_kinds()[i],
        forall|i: int|
            0 <= i < states.len() && i < 9 ==> {
                &&& (#[trigger] states[i]).shown_board_size() == row_size(i)
                &&& states[i].receiver_can_read()
                &&& states[i].has_pending() == (states[i].phase == Phase::Spend
                    ==> states[i].has_witnesses())
            },
        forall|i: int|
            #![trigger states[i]]
            0 <= i < states.len() && (i == 4 || i == 8) ==> states[i].received@.len() == 1
                && states[i].input()@.owner_pk == states[i].hop().spender.pk_p@,
        states.len() == 10 ==> states[9].ledger@.entries.len() == 3,
{
    assert forall|i: int| 0 <= i < states.len() implies is_demo_state(#[trigger] states[i], i) by {
        lemma_demo_states(states, vks, snarks, i);
    }
    if states.len() > 10 {
        assert(is_demo_state(states[10], 10));
    }
    assert forall|i: int, c: StepCircuit|
        0 <= i < states.len() && #[trigger] states[i].is_pending(c) implies i < 9 && cli::kind_of(c)
        == demo_kinds()[i] by {
        assert(is_demo_state(states[i], i));
    }
}

/// The state before the step at a place of the measurement.
spec fn is_grid_cell_state(chain: Chain, i: int) -> bool {
    &&& is_grid_cell_plan(chain.hops@)
    &&& 0 <= i <= 9
    &&& chain.phase == phase_at(i)
    &&& chain.at == (if i == 9 {
        3
    } else {
        i / 4
    })
    &&& chain.ledger@.entries.len() == (if i == 9 {
        2
    } else {
        (i + 3) / 4
    })
    &&& chain.received@.len() == (if i == 9 {
        0
    } else {
        i / 4
    })
    &&& forall|j: int|
        0 <= j < chain.received@.len() ==> (#[trigger] chain.received@[j]).coin
            == chain.hops@[j].outputs@[0].0
}

proof fn lemma_grid_cell_step(before: Chain, after: Chain, vk: Seq<u8>, snark: Seq<u8>, i: int)
    requires
        is_grid_cell_state(before, i),
        before.advanced(after, vk, snark),
    ensures
        i < 9,
        is_grid_cell_state(after, i + 1),
{
    if i % 4 == 3 {
        assert forall|j: int| 0 <= j < after.received@.len() implies (
        #[trigger] after.received@[j]).coin == after.hops@[j].outputs@[0].0 by {
            if j < before.received@.len() {
                assert(after.received@.drop_last()[j] == before.received@[j]);
            } else {
                assert(after.received@[j] == after.received@.last());
            }
        }
    }
}

proof fn lemma_grid_cell_states(
    states: Seq<Chain>,
    vks: Seq<Seq<u8>>,
    snarks: Seq<Seq<u8>>,
    i: int,
)
    requires
        is_run(states, vks, snarks),
        is_grid_cell_plan(states[0].hops@),
        0 <= i < states.len(),
    ensures
        is_grid_cell_state(states[i], i),
    decreases i,
{
    if i > 0 {
        lemma_grid_cell_states(states, vks, snarks, i - 1);
        assert(takes_step(states, vks, snarks, i - 1));
        lemma_grid_cell_step(states[i - 1], states[i], vks[i - 1], snarks[i - 1], i - 1);
    }
}

/// The measurement takes nine proofs in order: twice a mint, its wrap, Alice's receipt and its
/// wrap; then Alice's spend of both coins. The board shown with them has 1, 1, 1, 1, 2, 2, 2,
/// 2 and 3 entries, though the last spend is not posted. Each receiver can read what they are
/// paid, the last spend takes both coins, and the chain is at its end after the ninth proof
/// and not before.
pub proof fn measurement_runs_in_order(
    states: Seq<Chain>,
    vks: Seq<Seq<u8>>,
    snarks: Seq<Seq<u8>>,
)
    requires
        is_run(states, vks, snarks),
        is_grid_cell_plan(states[0].hops@),
    ensures
        grid_cell_kinds().len() == 9,
        states.len() <= 10,
        forall|i: int|
            0 <= i < states.len() ==> ((#[trigger] states[i]).phase == Phase::Done <==> i == 9),
        forall|i: int, c: StepCircuit|
            0 <= i < states.len() && #[trigger] states[i].is_pending(c) ==> i < 9 && cli::kind_of(c)
                == grid_cell_kinds()[i],
        forall|i: int|
            0 <= i < states.len() && i < 9 ==> {
                &&& (#[trigger] states[i]).shown_board_size() == row_size(i)
                &&& states[i].receiver_can_read()
                &&& states[i].has_pending() == (states[i].phase == Phase::Spend
                    ==> states[i].has_witnesses())
            },
        states.len() > 8 ==> {
            &&& states[8].received@.len() == MAX_INPUTS
            &&& states[8].hop().outputs@.len() == MAX_OUTPUTS
            &&& forall|j: int|
                0 <= j < MAX_INPUTS ==> (#[trigger] states[8].received@[j]).coin
                    == states[8].hops@[j].outputs@[0].0
        },
        states.len() == 10 ==> states[9].ledger@.entries.len() == 2,
{
    assert forall|i: int| 0 <= i < states.len() implies is_grid_cell_state(
        #[trigger] states[i],
        i,
    ) by {
        lemma_grid_cell_states(states, vks, snarks, i);
    }
    if states.len() > 10 {
        assert(is_grid_cell_state(states[10], 10));
    }
    assert forall|i: int, c: StepCircuit|
        0 <= i < states.len() && #[trigger] states[i].is_pending(c) implies i < 9 && cli::kind_of(c)
        == grid_cell_kinds()[i] by {
        assert(is_grid_cell_state(states[i], i));
    }
}

/// A proof is taken only where it verifies for the public values of its step: those of the
/// spend (the spender's coordinates, the output commitments, the board's and the accumulator's
/// roots), the pieces of these for a wrapped spend, those of the receipt (the receiver's
/// coordinates, the coin's commitment, the root that the posted entry reaches, its slot), or
/// their pieces. A complete chain takes none.
pub proof fn proof_is_taken_only_where_it_verifies(chain: Chain, vk: Seq<u8>, snark: Seq<u8>)
    requires
        chain.well_formed(),
        chain.refusal(vk, snark) is None,
    ensures
        ({
            let accepted = Ok::<bool, SynthesisError>(true);
            let hop = chain.hops@[chain.at as int];
            let outputs = hop.outputs@;
            &&& chain.phase != Phase::Done
            &&& chain.phase == Phase::Spend ==> {
                let pk = keys::coordinates(hop.spender.pk_p@);
                let publics = seq![
                    pk.0,
                    pk.1,
                    coin::coin_commitment(outputs[0].0@),
                    if outputs.len() > 1 {
                        coin::coin_commitment(outputs[1].0@)
                    } else {
                        0
                    },
                    ledger::anchor_root(chain.ledger@),
                    nullifier::accumulator_root(chain.ledger@.spent),
                ];
                &&& groth16::mnt4_outcome(vk, publics, snark) == accepted
                &&& hop.minted is None ==> 0 < chain.received@.len() <= 2
                &&& hop.minted is None && hop.posts ==> chain.received@.len() == 1
            }
            &&& chain.phase == Phase::WrapSpend ==> groth16::mnt6_outcome(
                vk,
                circuit_wrap::chunks_of(field::fr_values(chain.publics@)),
                snark,
            ) == accepted
            &&& chain.phase == Phase::Receipt ==> {
                let pk = keys::coordinates(hop.receiver.pk_p@);
                groth16::mnt4_outcome(
                    vk,
                    seq![
                        pk.0,
                        pk.1,
                        coin::coin_commitment(outputs[0].0@),
                        chain.posted->0.root(),
                        chain.posted->0.slot as nat,
                    ],
                    snark,
                ) == accepted
            }
            &&& chain.phase == Phase::WrapReceipt ==> groth16::mnt6_outcome(
                vk,
                circuit_wrap::chunks_of(field::fr_values(chain.receipt_publics@)),
                snark,
            ) == accepted
        }),
{
    if chain.phase == Phase::Spend {
        let hop = chain.hop();
        let outputs = hop.outputs@;
        let pk = keys::coordinates(hop.spender.pk_p@);
        assert(is_sound_hop(chain.hops@[chain.at as int]));
        let commitments = coin::coin_commitments(wallet::output_coins(outputs));
        assert(commitments.len() == outputs.len());
        assert(commitments[0] == coin::coin_commitment(outputs[0].0@));
        if outputs.len() > 1 {
            assert(commitments[1] == coin::coin_commitment(outputs[1].0@));
        }
        assert(chain.hop_publics() =~= seq![
            pk.0,
            pk.1,
            coin::coin_commitment(outputs[0].0@),
            if outputs.len() > 1 {
                coin::coin_commitment(outputs[1].0@)
            } else {
                0
            },
            ledger::anchor_root(chain.ledger@),
            nullifier::accumulator_root(chain.ledger@.spent),
        ]);
    }
}

/// Of what is wrong with a proof, the first is told; and where nothing is, it is taken. A spend
/// needs a coin to spend, a proof that verifies and, where it is posted, a nullifier that is not
/// zero and an entry in which its receiver finds the new coin. The other steps need a proof that
/// verifies.
pub proof fn refusals_come_in_order(chain: Chain, vk: Seq<u8>, snark: Seq<u8>)
    requires
        chain.well_formed(),
    ensures
        ({
            let hop = chain.hops@[chain.at as int];
            let why = chain.refusal(vk, snark);
            let accepted = Ok::<bool, SynthesisError>(true);
            let funded = hop.minted is Some || (0 < chain.received@.len() <= 2 && (hop.posts
                ==> chain.received@.len() == 1));
            let proven = funded && groth16::mnt4_outcome(vk, chain.hop_publics(), snark) == accepted;
            let entry = chain.hop_entry(snark);
            let found = envelope::scanned_from(hop.receiver.enc_sk@, entry, 0);
            let wanted = coin::coin_commitment(hop.outputs@[0].0@);
            &&& chain.phase == Phase::Done ==> why == Some("the chain is complete"@)
            &&& chain.phase == Phase::Spend ==> {
                &&& !funded ==> why == Some("there is no coin to spend"@)
                &&& funded && !proven ==> why == Some("the spend proof does not verify"@)
                &&& proven && !hop.posts ==> why is None
                &&& proven && hop.posts && entry.nullifier == 0 ==> why == Some(
                    "a coin with the nullifier zero cannot be spent"@,
                )
                &&& proven && hop.posts && entry.nullifier > 0 && found is None ==> why == Some(
                    "the receiver cannot decrypt the entry"@,
                )
                &&& proven && hop.posts && entry.nullifier > 0 && found is Some
                    && !found->0.output_commitments.contains(wanted) ==> why == Some(
                    "the entry does not transfer the receiver's coin"@,
                )
                &&& proven && hop.posts && entry.nullifier > 0 && found is Some
                    && found->0.output_commitments.contains(wanted) ==> why is None
            }
            &&& chain.phase == Phase::WrapSpend ==> why == (if groth16::mnt6_outcome(
                vk,
                circuit_wrap::chunks_of(field::fr_values(chain.publics@)),
                snark,
            ) == accepted {
                None
            } else {
                Some("the wrapped spend proof does not verify"@)
            })
            &&& chain.phase == Phase::Receipt ==> why == (if groth16::mnt4_outcome(
                vk,
                chain.hop_receipt_publics(),
                snark,
            ) == accepted {
                None
            } else {
                Some("the receipt proof does not verify"@)
            })
            &&& chain.phase == Phase::WrapReceipt ==> why == (if groth16::mnt6_outcome(
                vk,
                circuit_wrap::chunks_of(field::fr_values(chain.receipt_publics@)),
                snark,
            ) == accepted {
                None
            } else {
                Some("the wrapped receipt proof does not verify"@)
            })
        }),
{
}

/// A spend that is posted has an entry that its receiver can decrypt, and finds the new coin
/// in.
pub proof fn posted_spend_reaches_its_receiver(chain: Chain, vk: Seq<u8>, snark: Seq<u8>)
    requires
        chain.well_formed(),
        chain.phase == Phase::Spend,
        chain.hops@[chain.at as int].posts,
        chain.refusal(vk, snark) is None,
    ensures
        ({
            let hop = chain.hops@[chain.at as int];
            let found = envelope::scanned_from(hop.receiver.enc_sk@, chain.hop_entry(snark), 0);
            &&& found is Some
            &&& found->0.output_commitments.contains(coin::coin_commitment(hop.outputs@[0].0@))
            &&& chain.hop_entry(snark).nullifier > 0
        }),
{
}

/// The ledger changes where a spend is posted and nowhere else: then it has one entry more, the
/// others stay, and the nullifier of the spent coin is published. What was received is spent by
/// a spend that is no mint, and grows by the new coin where a receipt is wrapped.
pub proof fn taking_a_proof_changes_only_this(
    before: Chain,
    after: Chain,
    vk: Seq<u8>,
    snark: Seq<u8>,
)
    requires
        before.well_formed(),
        before.advanced(after, vk, snark),
    ensures
        ({
            let hop = before.hops@[before.at as int];
            let posts = before.phase == Phase::Spend && hop.posts;
            let input = match hop.minted {
                Some(c) => c,
                None => before.received@[0].coin,
            };
            &&& after.hops@ == before.hops@
            &&& after.vk@ == vk
            &&& after.snark@ == snark
            &&& !posts ==> after.ledger@ == before.ledger@
            &&& posts ==> {
                &&& after.ledger@.entries.len() == before.ledger@.entries.len() + 1
                &&& after.ledger@.entries.drop_last() == before.ledger@.entries
                &&& after.ledger@.entries.last().output_commitments.len() == hop.outputs@.len()
                &&& forall|i: int|
                    0 <= i < hop.outputs@.len() ==> #[trigger]
                    after.ledger@.entries.last().output_commitments[i] == coin::coin_commitment(
                        hop.outputs@[i].0@,
                    )
                &&& after.ledger@.entries.last().nullifier == envelope::nullifier_of(
                    coin::coin_commitment(input@),
                    hop.spender.sk_p@,
                )
                &&& after.ledger@.spent == nullifier::inserted(
                    before.ledger@.spent,
                    envelope::nullifier_of(coin::coin_commitment(input@), hop.spender.sk_p@),
                )
            }
            &&& before.phase == Phase::Spend && hop.minted is None ==> after.received@.len() == 0
            &&& before.phase == Phase::Spend && hop.minted is Some ==> after.received@
                == before.received@
            &&& before.phase == Phase::WrapReceipt ==> after.received@.len()
                == before.received@.len() + 1 && after.received@.drop_last() == before.received@
                && after.received@.last().coin == hop.outputs@[0].0 && after.received@.last().snark@
                == snark && after.wrap_vk@ == vk
            &&& before.phase == Phase::WrapSpend || before.phase == Phase::Receipt
                ==> after.received@ == before.received@
            &&& before.phase == Phase::Spend ==> field::fr_values(after.publics@)
                == before.hop_publics()
            &&& before.phase != Phase::Spend ==> after.publics@ == before.publics@
            &&& before.phase == Phase::Receipt ==> field::fr_values(after.receipt_publics@)
                == before.hop_receipt_publics()
            &&& posts ==> after.posted is Some && {
                let posted = after.posted->0;
                &&& posted.entry@ == after.ledger@.entries.last()
                &&& posted.slot == before.ledger@.entries.len()
                &&& posted.publics@ == after.publics@
                &&& posted.nullifier_root@ == nullifier::accumulator_root(before.ledger@.spent)
                &&& posted.witness@ == nullifier::witness_for(
                    before.ledger@.spent,
                    posted.entry@.nullifier,
                )
                &&& field::fr_values(posted.path@) == merkle::tree_path(
                    board::board_leaves(before.ledger@.entries),
                    before.ledger@.entries.len(),
                )
            }
        }),
{
    let hop = before.hop();
    assert(coin::coin_commitments(seq![before.input()])[0] == coin::coin_commitment(
        before.input()@,
    ));
    if before.phase == Phase::Spend && hop.posts {
        assert(after.ledger@.entries.drop_last() =~= before.ledger@.entries);
    }
}

/// The steps of a hop follow one another: a spend, and where a receipt is built its wrap, the
/// receipt and the receipt's wrap; then the next hop.
pub proof fn steps_follow_one_another(before: Chain, after: Chain, vk: Seq<u8>, snark: Seq<u8>)
    requires
        before.well_formed(),
        before.advanced(after, vk, snark),
    ensures
        ({
            let receipt = before.hops@[before.at as int].builds_receipt;
            let next = if before.at + 1 < before.hops@.len() {
                Phase::Spend
            } else {
                Phase::Done
            };
            &&& before.phase == Phase::Spend && receipt ==> after.phase == Phase::WrapSpend
                && after.at == before.at
            &&& before.phase == Phase::Spend && !receipt ==> after.phase == next && after.at
                == before.at + 1
            &&& before.phase == Phase::WrapSpend ==> after.phase == Phase::Receipt && after.at
                == before.at
            &&& before.phase == Phase::Receipt ==> after.phase == Phase::WrapReceipt && after.at
                == before.at
            &&& before.phase == Phase::WrapReceipt ==> after.phase == next && after.at
                == before.at + 1
        }),
{
}

/// The check of a mint by the genesis key, from a coin of that key whose nullifier lies between
/// the accumulator's bounds, succeeds if and only if both coins have the same value.
pub proof fn mint_check_compares_values(
    minter: &Party,
    input: &Coin,
    output: &Coin,
    r: Option<bool>,
)
    requires
        call_ensures(check_mint, (minter, input, output), r),
        minter.owns_its_key(),
        minter.sk_p@ == 1,
        input.owner_pk@ == minter.pk_p@,
        0 < ledger::spending_nullifier(*minter, *input) < nullifier::max_value(),
    ensures
        r == Some(input.value == output.value),
{
    let c = choose|c: GenesisSpendCircuit|
        {
            &&& ledger::is_mint(c, ledger::empty_ledger(), *minter, *input, *output)
            &&& r->0 == #[trigger] c.relation()
        };
    let empty = ledger::empty_ledger();
    vstd::arithmetic::power2::lemma2_to64();
    nullifier::replay_holds_exactly_the_values(Seq::empty(), 0);
    assert(nullifier::replayed(Seq::empty()) == nullifier::initial_leaves());
    let target = ledger::spending_nullifier(*minter, *input);
    assert(!nullifier::has_value(empty.spent, target));
    if input.value == output.value {
        ledger::honest_mint_satisfies_circuit(c, empty, *minter, *input, *output);
    }
    if c.relation() {
        reveal_with_fuel(circuit_spend::active_total, 3);
        assert(c.input_coins@[0] == Some(*input) && c.input_coins@[1] is None);
        assert(c.output_coins@[0] == Some(*output) && c.output_coins@[1] is None);
    }
}

/// A plan passes every coin on: a mint creates as much as it takes, every other spend pays out
/// what its spender received, each new coin belongs to whoever can decrypt its note, and each
/// spender but the minter received the coins before.
pub proof fn demonstration_passes_every_coin_on(hops: Vec<Hop>, i: int)
    requires
        call_ensures(demo_hops, (), hops),
        0 <= i < 3,
    ensures
        hops@.len() == 3,
        hops@[i].receiver.pk_p@ == hops@[i].outputs@[0].0.owner_pk@,
        hops@[i].receiver.enc_pk@ == hops@[i].outputs@[0].1@,
        hops@[i].minted is Some <==> i == 0,
        hops@[0].minted->0.value == hops@[0].outputs@[0].0.value,
        hops@[0].minted->0.owner_pk@ == hops@[0].spender.pk_p@,
        hops@[1].spender == hops@[0].receiver,
        hops@[2].spender == hops@[1].receiver,
        hops@[1].outputs@[0].0.value + hops@[1].outputs@[1].0.value
            == hops@[0].outputs@[0].0.value,
        hops@[1].outputs@[1].0.owner_pk@ == hops@[1].spender.pk_p@,
        hops@[2].outputs@[0].0.value == hops@[1].outputs@[0].0.value,
        hops@[i].posts,
        hops@[i].builds_receipt <==> i < 2,
{
    let plan = hops@;
    assert(plan[0].outputs@[0].0@.value == plan[0].outputs@[0].0.value as nat);
    assert(plan[1].outputs@[0].0@.value == plan[1].outputs@[0].0.value as nat);
    assert(plan[1].outputs@[1].0@.value == plan[1].outputs@[1].0.value as nat);
    assert(plan[2].outputs@[0].0@.value == plan[2].outputs@[0].0.value as nat);
    assert(plan[0].minted->0@.value == plan[0].minted->0.value as nat);
    assert(plan[0].minted->0@.owner_pk == plan[0].minted->0.owner_pk@);
    assert(plan[0].outputs@[0].0@.owner_pk == plan[0].outputs@[0].0.owner_pk@);
    assert(plan[1].outputs@[0].0@.owner_pk == plan[1].outputs@[0].0.owner_pk@);
    assert(plan[1].outputs@[1].0@.owner_pk == plan[1].outputs@[1].0.owner_pk@);
    assert(plan[2].outputs@[0].0@.owner_pk == plan[2].outputs@[0].0.owner_pk@);
    assert(is_sound_hop(plan[i]) && plan[i].posts);
}

/// The measurement does the same with two mints whose coins are spent at once.
pub proof fn measurement_passes_every_coin_on(hops: Vec<Hop>, i: int)
    requires
        call_ensures(grid_cell_hops, (), hops),
        0 <= i < 3,
    ensures
        hops@.len() == 3,
        hops@[i].receiver.pk_p@ == hops@[i].outputs@[0].0.owner_pk@,
        hops@[i].receiver.enc_pk@ == hops@[i].outputs@[0].1@,
        hops@[i].minted is Some <==> i < 2,
        i < 2 ==> hops@[i].minted->0.value == hops@[i].outputs@[0].0.value,
        i < 2 ==> hops@[i].minted->0.owner_pk@ == hops@[i].spender.pk_p@,
        hops@[1].receiver == hops@[0].receiver,
        hops@[2].spender == hops@[0].receiver,
        hops@[2].outputs@[0].0.value + hops@[2].outputs@[1].0.value
            == hops@[0].outputs@[0].0.value + hops@[1].outputs@[0].0.value,
        hops@[2].outputs@[1].0.owner_pk@ == hops@[2].spender.pk_p@,
        hops@[i].posts <==> i < 2,
        hops@[i].builds_receipt <==> i < 2,
{
    let plan = hops@;
    assert(plan[0].outputs@[0].0@.value == plan[0].outputs@[0].0.value as nat);
    assert(plan[1].outputs@[0].0@.value == plan[1].outputs@[0].0.value as nat);
    assert(plan[2].outputs@[0].0@.value == plan[2].outputs@[0].0.value as nat);
    assert(plan[2].outputs@[1].0@.value == plan[2].outputs@[1].0.value as nat);
    assert(plan[0].minted->0@.value == plan[0].minted->0.value as nat);
    assert(plan[1].minted->0@.value == plan[1].minted->0.value as nat);
    assert(plan[0].minted->0@.owner_pk == plan[0].minted->0.owner_pk@);
    assert(plan[1].minted->0@.owner_pk == plan[1].minted->0.owner_pk@);
    assert(plan[0].outputs@[0].0@.owner_pk == plan[0].outputs@[0].0.owner_pk@);
    assert(plan[1].outputs@[0].0@.owner_pk == plan[1].outputs@[0].0.owner_pk@);
    assert(plan[2].outputs@[0].0@.owner_pk == plan[2].outputs@[0].0.owner_pk@);
    assert(plan[2].outputs@[1].0@.owner_pk == plan[2].outputs@[1].0.owner_pk@);
    assert(is_sound_hop(plan[i]));
}

/// A chain starts from hops that each have one or two outputs and build receipts only of posted
/// spends; it starts at the first, with nothing received and nothing posted.
pub proof fn chain_starts_from_sound_hops(hops: Vec<Hop>, r: Option<Chain>)
    requires
        call_ensures(Chain::new, (hops,), r),
    ensures
        r is Some <==> forall|i: int|
            0 <= i < hops@.len() ==> 1 <= (#[trigger] hops@[i]).outputs@.len() <= 2 && (
            hops@[i].builds_receipt ==> hops@[i].posts),
        r matches Some(chain) ==> {
            &&& chain.hops@ == hops@
            &&& chain.at == 0
            &&& chain.received@.len() == 0
            &&& chain.ledger@.entries.len() == 0
            &&& chain.phase == if hops@.len() == 0 {
                Phase::Done
            } else {
                Phase::Spend
            }
        },
{
    if forall|i: int|
        0 <= i < hops@.len() ==> 1 <= (#[trigger] hops@[i]).outputs@.len() <= 2 && (
        hops@[i].builds_receipt ==> hops@[i].posts) {
        assert forall|i: int| 0 <= i < hops@.len() implies is_sound_hop(#[trigger] hops@[i]) by {}
    }
    if r is Some {
        assert forall|i: int| 0 <= i < hops@.len() implies 1 <= (
        #[trigger] hops@[i]).outputs@.len() <= 2 && (hops@[i].builds_receipt ==> hops@[i].posts) by {
            assert(is_sound_hop(hops@[i]));
        }
    }
}

/// The circuit that is pending is the one of the current step: a mint or a spend of the hop's
/// spender, the wrap of the last proof with the spend's public values, the receipt of the
/// posted spend with the last proof, or the wrap of that receipt's proof.
pub proof fn pending_circuit_is_that_of_the_step(chain: &Chain, r: Option<StepCircuit>)
    requires
        chain.well_formed(),
        call_ensures(Chain::pending, (chain,), r),
        r is Some,
    ensures
        ({
            let hop = chain.hops@[chain.at as int];
            &&& chain.phase != Phase::Done
            &&& chain.phase == Phase::Spend && hop.minted is Some ==> r->0 is Mint
                && r->0->Mint_0.pk_p == Some(hop.spender.pk_p) && r->0->Mint_0.sk_p == Some(
                hop.spender.sk_p,
            ) && r->0->Mint_0.input_coins@[0] == hop.minted && r->0->Mint_0.output_coins@[0]
                == Some(hop.outputs@[0].0)
            &&& chain.phase == Phase::Spend && hop.minted is None ==> r->0 is Spend
                && r->0->Spend_0.pk_p == Some(hop.spender.pk_p) && r->0->Spend_0.sk_p == Some(
                hop.spender.sk_p,
            ) && r->0->Spend_0.wrap_vk@ == chain.wrap_vk@ && r->0->Spend_0.input_coins@[0] == Some(
                chain.received@[0].coin,
            ) && r->0->Spend_0.input_receipt_proofs@[0]->0@ == chain.received@[0].snark@
            &&& chain.phase == Phase::WrapSpend ==> r->0 is WrapSpend
                && r->0->WrapSpend_0.inner_vk@ == chain.vk@
                && r->0->WrapSpend_0.inner_proof->0@ == chain.snark@
                && r->0->WrapSpend_0.inner_public_inputs->0@ == chain.publics@
            &&& chain.phase == Phase::Receipt ==> r->0 is Receipt && r->0->Receipt_0.wrap_vk@
                == chain.vk@ && r->0->Receipt_0.wrap_proof->0@ == chain.snark@
                && r->0->Receipt_0.sk_p->0@ == hop.receiver.sk_p@
                && r->0->Receipt_0.coin_commitment->0@ == coin::coin_commitment(
                hop.outputs@[0].0@,
            ) && r->0->Receipt_0.wrap_public_inputs->0@ == chain.posted->0.publics@
            &&& chain.phase == Phase::WrapReceipt ==> r->0 is WrapReceipt
                && r->0->WrapReceipt_0.inner_vk@ == chain.vk@
                && r->0->WrapReceipt_0.inner_proof->0@ == chain.snark@
                && r->0->WrapReceipt_0.inner_public_inputs->0@ == chain.receipt_publics@
        }),
{
    if chain.phase == Phase::Spend {
        assert(is_sound_hop(chain.hops@[chain.at as int]));
        match chain.hop().minted {
            Some(input) => {
                let c = r->0->Mint_0;
                assert(c.input_coins@[0] == ledger::slots(seq![input])[0]);
                assert(c.output_coins@[0] == ledger::slots(seq![chain.hop().outputs@[0].0])[0]);
            },
            None => {
                let c = r->0->Spend_0;
                let coins = ledger::received_coins(chain.received@);
                assert(c.input_coins@[0] == ledger::slots(coins)[0]);
                assert(coins[0] == chain.received@[0].coin);
                assert(c.input_receipt_proofs@[0]->0@ == chain.received@[0].snark@);
            },
        }
    }
}

/// There is a circuit for every step but the end of the chain. A mint needs one output and a coin
/// whose nullifier is not zero, and any other spend one or two received coins, one where it is
/// posted, whose nullifiers are not zero.
pub proof fn step_has_a_circuit(chain: &Chain, r: Option<StepCircuit>)
    requires
        chain.well_formed(),
        call_ensures(Chain::pending, (chain,), r),
    ensures
        ({
            let hop = chain.hops@[chain.at as int];
            &&& chain.phase == Phase::Done ==> r is None
            &&& chain.phase == Phase::Spend && hop.minted is Some ==> (r is Some
                <==> hop.outputs@.len() == 1 && ledger::spending_nullifier(
                hop.spender,
                hop.minted->0,
            ) > 0)
            &&& chain.phase == Phase::Spend && hop.minted is None ==> (r is Some <==> 0
                < chain.received@.len() <= 2 && (hop.posts ==> chain.received@.len() == 1)
                && forall|i: int|
                    0 <= i < chain.received@.len() ==> ledger::spending_nullifier(
                        hop.spender,
                        (#[trigger] chain.received@[i]).coin,
                    ) > 0)
            &&& chain.phase != Phase::Done && chain.phase != Phase::Spend ==> r is Some
        }),
{
}

/// The entry of a hop is what encrypting its transaction gives: the transaction that the spender
/// makes of the spent coin and the outputs, numbered with the next slot, with the proof attached,
/// encrypted to the outputs' recipients under its own session key.
pub proof fn entry_is_the_encrypted_transaction(
    chain: &Chain,
    snark: Seq<u8>,
    inputs: &[Coin],
    outputs: &[(Coin, [u8; 32])],
    made: (Transaction, [u8; 32], Vec<[u8; 32]>),
    tx: &Transaction,
    recipients: &[[u8; 32]],
    entry: board::BoardEntry,
)
    requires
        chain.well_formed(),
        chain.phase == Phase::Spend,
        chain.ledger.entries@.len() <= u64::MAX,
        inputs@ == seq![
            match chain.hops@[chain.at as int].minted {
                Some(c) => c,
                None => chain.received@[0].coin,
            },
        ],
        outputs@ == chain.hops@[chain.at as int].outputs@,
        call_ensures(
            make_tx,
            (
                chain.ledger.entries@.len() as u64,
                chain.hops@[chain.at as int].spender.enc_sk,
                inputs,
                outputs,
            ),
            made,
        ),
        tx.id == made.0.id,
        tx.input_commitments@ == made.0.input_commitments@,
        tx.output_commitments@ == made.0.output_commitments@,
        tx.note_encs@ == made.0.note_encs@,
        tx.spend_proof@ == snark,
        recipients@ == made.2@,
        call_ensures(
            envelope::encrypt_tx,
            (tx, &chain.hops@[chain.at as int].spender.sk_p, recipients, made.1),
            entry,
        ),
    ensures
        entry@ == chain.hop_entry(snark),
{
    let hop = chain.hop();
    let slot = chain.ledger@.entries.len();
    assert(slot == chain.ledger.entries@.len());
    let key = wallet::session_key_of(hop.spender.enc_sk@, slot);
    let plain = wallet::made_transaction(slot, key, seq![chain.input()], hop.outputs@);
    assert(made.0@ == plain);
    assert(tx@ =~= coin::TransactionView { spend_proof: snark, ..plain });
    assert(board::key_seqs(recipients@) =~= wallet::output_keys(hop.outputs@));
}

} // verus!
