//! The nullifier accumulator: an indexed Merkle tree.
//!
//! Every published nullifier is inserted into one tree whose leaves form a sorted
//! linked list: each holds a value, the next larger value and where that one
//! stands. A single path to a leaf with `value < target < next_value` shows that
//! `target` is absent from the whole set that the root stands for.
//!
//! Values are ordered by their canonical representatives.

use vstd::prelude::*;
use vstd::arithmetic::power2::pow2;
use std::collections::HashMap;
use crate::field;
use crate::field::{fr_negated, Fr};
use crate::merkle;
use crate::merkle::{merkle_combine, root_from_path, sibling_index, zero_hashes, TREE_DEPTH};
use crate::poseidon;
use crate::poseidon::Hasher;

verus! {

/// One leaf of the accumulator.
#[derive(Clone, Copy, Debug, PartialEq, Eq)]
pub struct IndexedLeaf {
    pub value: Fr,
    pub next_value: Fr,
    pub next_index: u64,
}

/// What an [`IndexedLeaf`] holds.
pub struct LeafView {
    pub value: nat,
    pub next_value: nat,
    pub next_index: nat,
}

impl View for IndexedLeaf {
    type V = LeafView;

    open spec fn view(&self) -> LeafView {
        LeafView {
            value: self.value@,
            next_value: self.next_value@,
            next_index: self.next_index as nat,
        }
    }
}

/// The contents of leaves.
pub open spec fn leaf_views(leaves: Seq<IndexedLeaf>) -> Seq<LeafView> {
    leaves.map_values(|l: IndexedLeaf| l@)
}

/// The hash of a leaf.
pub open spec fn leaf_hash(leaf: LeafView) -> nat {
    poseidon::poseidon(seq![leaf.value, leaf.next_value, leaf.next_index])
}

/// The hashes of leaves.
pub open spec fn leaf_hashes(leaves: Seq<LeafView>) -> Seq<nat> {
    leaves.map_values(|l: LeafView| leaf_hash(l))
}

/// The value above every real nullifier: the largest representative.
pub open spec fn max_value() -> nat {
    (field::fr_modulus() - 1) as nat
}

/// Sentinel "infinity": the field's largest representative.
pub fn max_nullifier() -> (r: Fr)
    ensures
        r@ == max_value(),
{
    let one = Fr::from(1u64);
    fr_negated(one)
}

impl IndexedLeaf {
    pub fn hash(&self) -> (r: Fr)
        ensures
            r@ == leaf_hash(self@),
    {
        hash_leaf(&Hasher::new(), self)
    }
}

fn hash_leaf(hasher: &Hasher, leaf: &IndexedLeaf) -> (r: Fr)
    ensures
        r@ == leaf_hash(leaf@),
{
    hasher.hash3(leaf.value, leaf.next_value, Fr::from(leaf.next_index))
}

/// A non-membership proof: a leaf with `value < target < next_value` and its path.
#[derive(Clone, Debug, PartialEq, Eq)]
pub struct NonMembershipWitness {
    pub low_leaf: IndexedLeaf,
    pub low_leaf_index: u64,
    pub sibling_path: Vec<Fr>,
}

/// What a [`NonMembershipWitness`] holds.
#[verifier::ext_equal]
pub struct WitnessView {
    pub low_leaf: LeafView,
    pub low_leaf_index: nat,
    pub sibling_path: Seq<nat>,
}

impl View for NonMembershipWitness {
    type V = WitnessView;

    open spec fn view(&self) -> WitnessView {
        WitnessView {
            low_leaf: self.low_leaf@,
            low_leaf_index: self.low_leaf_index as nat,
            sibling_path: field::fr_values(self.sibling_path@),
        }
    }
}

/// The witness brackets `target` and opens to `root`.
pub open spec fn shows_absence(root: nat, target: nat, witness: WitnessView) -> bool {
    &&& witness.low_leaf.value < target < witness.low_leaf.next_value
    &&& merkle::path_root(
        leaf_hash(witness.low_leaf),
        witness.low_leaf_index,
        witness.sibling_path,
    ) == root
}

/// Verify a non-membership witness against `root`: `target` cannot be a member if
/// some leaf with `value < target < next_value` opens to it, since no member lies
/// strictly between two adjacent leaves.
pub fn verify_nonmembership(root: Fr, target: Fr, witness: &NonMembershipWitness) -> (r: bool)
    ensures
        r == shows_absence(root@, target@, witness@),
{
    if !(witness.low_leaf.value.less_than(&target) && target.less_than(
        &witness.low_leaf.next_value,
    )) {
        return false;
    }
    let hasher = Hasher::new();
    let hash = hash_leaf(&hasher, &witness.low_leaf);
    root_from_path(
        &hasher,
        hash,
        witness.low_leaf_index,
        witness.sibling_path.as_slice(),
    ) == root
}


/// The value occurs in a leaf.
pub open spec fn has_value(leaves: Seq<LeafView>, value: nat) -> bool {
    exists|i: int| 0 <= i < leaves.len() && (#[trigger] leaves[i]).value == value
}

/// The leaf at `i` holds the largest value below `target`.
pub open spec fn is_low(leaves: Seq<LeafView>, i: int, target: nat) -> bool {
    &&& 0 <= i < leaves.len()
    &&& leaves[i].value < target
    &&& forall|j: int|
        0 <= j < leaves.len() && (#[trigger] leaves[j]).value < target ==> leaves[j].value
            <= leaves[i].value
}

/// Where the leaf with the largest value below `target` stands. No value is below zero: for
/// zero it is the place of the zero sentinel itself.
pub open spec fn low_index(leaves: Seq<LeafView>, target: nat) -> int {
    if target == 0 {
        0
    } else {
        choose|i: int| is_low(leaves, i, target)
    }
}

/// No value occurs in a leaf strictly between the value of leaf `i` and its next value,
/// and the next value occurs where the leaf says, or is the sentinel.
pub open spec fn links_to_successor(leaves: Seq<LeafView>, i: int) -> bool {
    let leaf = leaves[i];
    &&& forall|j: int|
        0 <= j < leaves.len() && leaf.value < (#[trigger] leaves[j]).value ==> leaf.next_value
            <= leaves[j].value
    &&& {
        ||| leaf.next_value == max_value() && leaf.next_index == 0 && forall|j: int|
            0 <= j < leaves.len() ==> (#[trigger] leaves[j]).value <= leaf.value
        ||| leaf.value < leaf.next_value && 0 <= leaf.next_index < leaves.len()
            && leaves[leaf.next_index as int].value == leaf.next_value
    }
}

/// The leaves form one sorted linked list that starts at the zero sentinel.
pub open spec fn is_linked_list(leaves: Seq<LeafView>) -> bool {
    &&& leaves.len() > 0
    &&& leaves[0].value == 0
    &&& forall|i: int| 0 <= i < leaves.len() ==> (#[trigger] leaves[i]).value < field::fr_modulus()
    &&& forall|i: int, j: int|
        0 <= i < j < leaves.len() ==> (#[trigger] leaves[i]).value != (#[trigger] leaves[j]).value
    &&& forall|i: int| 0 <= i < leaves.len() ==> #[trigger] links_to_successor(leaves, i)
}

/// The leaves after the insertion of a value.
pub open spec fn inserted(leaves: Seq<LeafView>, value: nat) -> Seq<LeafView> {
    if has_value(leaves, value) {
        leaves
    } else {
        let i = low_index(leaves, value);
        let low = leaves[i];
        leaves.update(
            i,
            LeafView { value: low.value, next_value: value, next_index: leaves.len() },
        ).push(LeafView { value, next_value: low.next_value, next_index: low.next_index })
    }
}

/// The leaves of a fresh accumulator: the single sentinel that spans everything.
pub open spec fn initial_leaves() -> Seq<LeafView> {
    seq![LeafView { value: 0, next_value: max_value(), next_index: 0 }]
}

/// The leaves after the insertion of values one by one.
pub open spec fn replayed(values: Seq<nat>) -> Seq<LeafView>
    decreases values.len(),
{
    if values.len() == 0 {
        initial_leaves()
    } else {
        inserted(replayed(values.drop_last()), values.last())
    }
}

/// The root of an accumulator.
pub open spec fn accumulator_root(leaves: Seq<LeafView>) -> nat {
    merkle::tree_root(leaf_hashes(leaves))
}

/// The witness that an accumulator gives for a target.
pub open spec fn witness_for(leaves: Seq<LeafView>, target: nat) -> WitnessView {
    let i = low_index(leaves, target);
    WitnessView {
        low_leaf: leaves[i],
        low_leaf_index: i as nat,
        sibling_path: merkle::tree_path(leaf_hashes(leaves), i as nat),
    }
}


/// One level of cached node hashes: a cached hash is the node's, and a node without
/// one is the zero node.
spec fn caches_level(hashes: Seq<nat>, d: nat, level: Map<usize, Fr>) -> bool {
    forall|i: usize|
        #![trigger merkle::node(hashes, d, i as nat)]
        #![trigger level.dom().contains(i)]
        if level.dom().contains(i) {
            merkle::node(hashes, d, i as nat) == level[i]@
        } else {
            merkle::node(hashes, d, i as nat) == merkle::zero_node(d)
        }
}

/// Every level is cached.
spec fn caches_tree(hashes: Seq<nat>, nodes: Seq<HashMap<usize, Fr>>) -> bool {
    &&& nodes.len() == TREE_DEPTH + 1
    &&& forall|d: int|
        0 <= d <= TREE_DEPTH ==> caches_level(hashes, d as nat, (#[trigger] nodes[d])@)
}

/// The index lists a value at a position.
spec fn lists(index: Seq<(Fr, usize)>, position: int, value: nat) -> bool {
    exists|k: int|
        0 <= k < index.len() && (#[trigger] index[k]).1 == position && index[k].0@ == value
}

/// `index` lists the value and the position of every leaf, by ascending value.
spec fn indexes(leaves: Seq<LeafView>, index: Seq<(Fr, usize)>) -> bool {
    &&& index.len() == leaves.len()
    &&& forall|k: int|
        0 <= k < index.len() ==> (#[trigger] index[k]).1 < leaves.len()
            && leaves[index[k].1 as int].value == index[k].0@
    &&& forall|k: int, l: int|
        0 <= k < l < index.len() ==> (#[trigger] index[k]).0@ < (#[trigger] index[l]).0@
    &&& forall|i: int| 0 <= i < leaves.len() ==> lists(index, i, (#[trigger] leaves[i]).value)
}

/// Append-only accumulator of nullifiers. Anyone can rebuild it from the published
/// nullifiers of a board.
///
/// It is maintained incrementally: a sorted index finds the low leaf for any value
/// by binary search, and every level's node hashes are cached, so an insertion
/// recomputes only what lies above the two leaves that change.
#[derive(Clone, Debug)]
pub struct NullifierTree {
    hasher: Hasher,
    /// Hashes of unfilled subtrees, by depth.
    zeros: Vec<Fr>,
    leaves: Vec<IndexedLeaf>,
    /// Value and position of every leaf, by ascending value.
    index_of: Vec<(Fr, usize)>,
    /// The hash of every filled node of each level, by its position there.
    nodes: Vec<HashMap<usize, Fr>>,
}

impl View for NullifierTree {
    type V = Seq<LeafView>;

    closed spec fn view(&self) -> Seq<LeafView> {
        leaf_views(self.leaves@)
    }
}

impl NullifierTree {
    /// The leaves are a sorted linked list, and index and cache belong to them.
    pub open spec fn well_formed(&self) -> bool {
        &&& is_linked_list(self@)
        &&& self.is_consistent()
    }

    /// Index and cache belong to the leaves.
    pub closed spec fn is_consistent(&self) -> bool {
        &&& self.zeros_hold()
        &&& indexes(self@, self.index_of@)
        &&& caches_tree(leaf_hashes(self@), self.nodes@)
    }

    spec fn zeros_hold(&self) -> bool {
        &&& self.zeros@.len() == TREE_DEPTH + 1
        &&& forall|d: int|
            0 <= d <= TREE_DEPTH ==> (#[trigger] self.zeros@[d])@ == merkle::zero_node(d as nat)
    }

    /// The cached hash at a position of a level, or the zero hash of that level.
    fn cached(&self, d: usize, i: usize, Ghost(hashes): Ghost<Seq<nat>>) -> (r: Fr)
        requires
            self.zeros_hold(),
            self.nodes@.len() == TREE_DEPTH + 1,
            d <= TREE_DEPTH,
            caches_level(hashes, d as nat, self.nodes@[d as int]@),
        ensures
            r@ == merkle::node(hashes, d as nat, i as nat),
    {
        broadcast use vstd::std_specs::hash::group_hash_axioms;

        match self.nodes[d].get(&i) {
            Some(h) => *h,
            None => self.zeros[d],
        }
    }

    /// Set the hash of leaf `idx` and carry the change up to the root.
    fn set_leaf(
        &mut self,
        idx: usize,
        hash: Fr,
        Ghost(before): Ghost<Seq<nat>>,
        Ghost(after): Ghost<Seq<nat>>,
    )
        requires
            old(self).zeros_hold(),
            caches_tree(before, old(self).nodes@),
            merkle::agree_except(before, after, idx as nat),
            merkle::leaf_at(after, idx as nat) == hash@,
        ensures
            final(self).zeros_hold(),
            caches_tree(after, final(self).nodes@),
            final(self).leaves == old(self).leaves,
            final(self).index_of == old(self).index_of,
    {
        broadcast use vstd::std_specs::hash::group_hash_axioms;

        let mut cur_idx: usize = idx;
        let mut cur_hash = hash;
        let mut d: usize = 0;
        while d < TREE_DEPTH
            invariant
                d <= TREE_DEPTH,
                self.zeros_hold(),
                self.leaves == old(self).leaves,
                self.index_of == old(self).index_of,
                self.nodes@.len() == TREE_DEPTH + 1,
                merkle::agree_except(before, after, idx as nat),
                cur_idx == merkle::ancestor(idx as nat, d as nat),
                cur_hash@ == merkle::node(after, d as nat, cur_idx as nat),
                forall|e: int|
                    0 <= e < d ==> caches_level(after, e as nat, (#[trigger] self.nodes@[e])@),
                forall|e: int|
                    d <= e <= TREE_DEPTH ==> caches_level(
                        before,
                        e as nat,
                        (#[trigger] self.nodes@[e])@,
                    ),
            decreases TREE_DEPTH - d,
        {
            let ghost old_nodes = self.nodes@;
            self.nodes[d].insert(cur_idx, cur_hash);
            proof {
                assert(caches_level(before, d as nat, old_nodes[d as int]@));
                assert(self.nodes@[d as int]@ == old_nodes[d as int]@.insert(cur_idx, cur_hash));
                Self::lemma_level_updated(
                    before,
                    after,
                    idx as nat,
                    d as nat,
                    old_nodes[d as int]@,
                    cur_idx,
                    cur_hash,
                );
                merkle::lemma_ancestor_step(idx as nat, d as nat);
                assert(cur_idx >> 1 == cur_idx / 2) by (bit_vector);
            }
            let sibling_idx = sibling_index(cur_idx);
            let sibling = self.cached(d, sibling_idx, Ghost(after));
            proof {
                let up = cur_idx as nat / 2;
                assert(merkle::node(after, d as nat + 1, up) == merkle::combined(
                    merkle::node(after, d as nat, 2 * up),
                    merkle::node(after, d as nat, 2 * up + 1),
                ));
            }
            cur_hash = if cur_idx % 2 == 0 {
                merkle_combine(&self.hasher, &cur_hash, &sibling)
            } else {
                merkle_combine(&self.hasher, &sibling, &cur_hash)
            };
            cur_idx = cur_idx >> 1;
            d += 1;
        }
        let ghost old_nodes = self.nodes@;
        self.nodes[TREE_DEPTH].insert(cur_idx, cur_hash);
        proof {
            assert(caches_level(before, TREE_DEPTH as nat, old_nodes[TREE_DEPTH as int]@));
            Self::lemma_level_updated(
                before,
                after,
                idx as nat,
                TREE_DEPTH as nat,
                old_nodes[TREE_DEPTH as int]@,
                cur_idx,
                cur_hash,
            );
        }
    }

    proof fn lemma_level_updated(
        before: Seq<nat>,
        after: Seq<nat>,
        idx: nat,
        d: nat,
        level: Map<usize, Fr>,
        i: usize,
        hash: Fr,
    )
        requires
            merkle::agree_except(before, after, idx),
            i as nat == merkle::ancestor(idx, d),
            hash@ == merkle::node(after, d, i as nat),
            caches_level(before, d, level),
        ensures
            caches_level(after, d, level.insert(i, hash)),
    {
        let updated = level.insert(i, hash);
        assert forall|j: usize|
            #![trigger merkle::node(after, d, j as nat)]
            #![trigger updated.dom().contains(j)]
            if updated.dom().contains(j) {
                merkle::node(after, d, j as nat) == updated[j]@
            } else {
                merkle::node(after, d, j as nat) == merkle::zero_node(d)
            } by {
            if j != i {
                merkle::lemma_node_agrees(before, after, idx, d, j as nat);
                assert(updated.dom().contains(j) == level.dom().contains(j));
                let old_node = merkle::node(before, d, j as nat);
            }
        }
    }

    /// The number of leaves with a value below `target`.
    fn rank(&self, target: &Fr) -> (r: usize)
        requires
            indexes(self@, self.index_of@),
        ensures
            r <= self.index_of@.len(),
            forall|k: int| 0 <= k < r ==> (#[trigger] self.index_of@[k]).0@ < target@,
            forall|k: int|
                r <= k < self.index_of@.len() ==> target@ <= (#[trigger] self.index_of@[k]).0@,
    {
        let mut lo: usize = 0;
        let mut hi: usize = self.index_of.len();
        while lo < hi
            invariant
                lo <= hi <= self.index_of@.len(),
                indexes(self@, self.index_of@),
                forall|k: int| 0 <= k < lo ==> (#[trigger] self.index_of@[k]).0@ < target@,
                forall|k: int|
                    hi <= k < self.index_of@.len() ==> target@ <= (#[trigger] self.index_of@[k]).0@,
            decreases hi - lo,
        {
            let mid: usize = lo + (hi - lo) / 2;
            if self.index_of[mid].0.less_than(target) {
                lo = mid + 1;
            } else {
                hi = mid;
            }
        }
        lo
    }

    /// The root of the accumulator.
    pub fn root(&self) -> (r: Fr)
        requires
            self.well_formed(),
        ensures
            r@ == accumulator_root(self@),
    {
        self.cached(TREE_DEPTH, 0, Ghost(leaf_hashes(self@)))
    }

    /// Whether a value is a member.
    pub fn contains(&self, value: Fr) -> (r: bool)
        requires
            self.well_formed(),
        ensures
            r == has_value(self@, value@),
    {
        let k = self.rank(&value);
        if k < self.index_of.len() && self.index_of[k].0 == value {
            assert(self@[self.index_of@[k as int].1 as int].value == value@);
            true
        } else {
            proof {
                assert forall|i: int| 0 <= i < self@.len() implies (#[trigger] self@[i]).value
                    != value@ by {
                    assert(lists(self.index_of@, i, self@[i].value));
                    let l = choose|l: int|
                        0 <= l < self.index_of@.len() && (#[trigger] self.index_of@[l]).1 == i
                            && self.index_of@[l].0@ == self@[i].value;
                    assert(self.index_of@[l].0@ == self@[i].value);
                    if l > k {
                        assert(self.index_of@[k as int].0@ < self.index_of@[l].0@);
                    }
                }
            }
            false
        }
    }
}


impl NullifierTree {
    /// A fresh accumulator, with the single sentinel that spans everything.
    pub fn new() -> (r: NullifierTree)
        ensures
            r.well_formed(),
            r@ == initial_leaves(),
    {
        broadcast use vstd::std_specs::hash::group_hash_axioms;

        let hasher = Hasher::new();
        let zeros = zero_hashes(&hasher);
        let sentinel = IndexedLeaf {
            value: Fr::from(0u64),
            next_value: max_nullifier(),
            next_index: 0,
        };
        let hash = hash_leaf(&hasher, &sentinel);
        let mut leaves: Vec<IndexedLeaf> = Vec::new();
        leaves.push(sentinel);
        let mut index_of: Vec<(Fr, usize)> = Vec::new();
        index_of.push((sentinel.value, 0usize));
        let mut nodes: Vec<HashMap<usize, Fr>> = Vec::new();
        let mut d: usize = 0;
        while d < TREE_DEPTH + 1
            invariant
                d <= TREE_DEPTH + 1,
                nodes@.len() == d,
                forall|e: int|
                    0 <= e < d ==> (#[trigger] nodes@[e])@ == Map::<usize, Fr>::empty(),
            decreases TREE_DEPTH + 1 - d,
        {
            nodes.push(HashMap::new());
            d += 1;
        }
        let mut tree = NullifierTree { hasher, zeros, leaves, index_of, nodes };
        let ghost none = Seq::<nat>::empty();
        let ghost one = leaf_hashes(tree@);
        proof {
            assert(tree@ =~= initial_leaves());
            assert(one[0] == hash@);
            assert(merkle::agree_except(none, one, 0));
            assert forall|e: int| 0 <= e <= TREE_DEPTH implies caches_level(
                none,
                e as nat,
                (#[trigger] tree.nodes@[e])@,
            ) by {
                assert forall|j: usize|
                    #![trigger merkle::node(none, e as nat, j as nat)]
                    merkle::node(none, e as nat, j as nat) == merkle::zero_node(e as nat) by {
                    merkle::lemma_unfilled(none, e as nat, j as nat);
                }
            }
            assert(caches_tree(none, tree.nodes@));
        }
        tree.set_leaf(0, hash, Ghost(none), Ghost(one));
        proof {
            assert(tree@ =~= initial_leaves());
            let leaves = tree@;
            assert(links_to_successor(leaves, 0));
            assert(tree.index_of@[0].1 == 0);
        }
        tree
    }

    /// Where the leaf with `value < target <= next_value` stands. For a non-member
    /// this is the place of insertion; for a member it is the predecessor, whose
    /// witness is then rejected. For zero it is the zero sentinel.
    fn find_low_leaf_index(&self, target: Fr) -> (r: usize)
        requires
            self.well_formed(),
        ensures
            target@ > 0 ==> is_low(self@, r as int, target@),
            r == low_index(self@, target@),
            r < self@.len(),
    {
        if !Fr::from(0u64).less_than(&target) {
            return 0;
        }
        let k = self.rank(&target);
        proof {
            assert(lists(self.index_of@, 0, self@[0].value));
            let z = choose|z: int|
                0 <= z < self.index_of@.len() && (#[trigger] self.index_of@[z]).1 == 0
                    && self.index_of@[z].0@ == self@[0].value;
            assert(self@[0].value == 0);
            assert(self.index_of@[z].0@ == 0);
            assert(k > 0);
            let low = self.index_of@[k - 1];
            assert forall|j: int|
                0 <= j < self@.len() && (#[trigger] self@[j]).value < target@ implies self@[j].value
                <= self@[low.1 as int].value by {
                assert(lists(self.index_of@, j, self@[j].value));
                let l = choose|l: int|
                    0 <= l < self.index_of@.len() && (#[trigger] self.index_of@[l]).1 == j
                        && self.index_of@[l].0@ == self@[j].value;
                assert(self.index_of@[l].0@ == self@[j].value);
                if l < k - 1 {
                    assert(self.index_of@[l].0@ < self.index_of@[k - 1].0@);
                }
            }
            assert(is_low(self@, low.1 as int, target@));
            lemma_low_leaf_unique(self@, low.1 as int, target@);
        }
        self.index_of[k - 1].1
    }

    /// Insert `value`, unless it is a member already, and return the new root.
    pub fn insert(&mut self, value: Fr) -> (r: Fr)
        requires
            old(self).well_formed(),
        ensures
            final(self).well_formed(),
            final(self)@ == inserted(old(self)@, value@),
            r@ == accumulator_root(final(self)@),
    {
        if self.contains(value) {
            return self.root();
        }
        let ghost before = self@;
        proof {
            use_type_invariant(&value);
            insertion_keeps_linked_list(before, value@);
            assert(before[0].value == 0);
        }
        let low_idx = self.find_low_leaf_index(value);
        let rank = self.rank(&value);
        let low = self.leaves[low_idx];
        let new_index: usize = self.leaves.len();
        let updated_low = IndexedLeaf {
            value: low.value,
            next_value: value,
            next_index: new_index as u64,
        };
        let new_leaf = IndexedLeaf {
            value,
            next_value: low.next_value,
            next_index: low.next_index,
        };
        let low_hash = hash_leaf(&self.hasher, &updated_low);
        let new_hash = hash_leaf(&self.hasher, &new_leaf);
        let ghost old_index = self.index_of@;
        let ghost hashes = leaf_hashes(before);
        let ghost middle = hashes.update(low_idx as int, low_hash@);

        self.leaves.set(low_idx, updated_low);
        self.leaves.push(new_leaf);
        self.index_of.insert(rank, (value, new_index));
        let ghost after = leaf_hashes(self@);
        proof {
            assert(self@ =~= inserted(before, value@));
            assert(after =~= middle.push(new_hash@));
            assert(merkle::agree_except(hashes, middle, low_idx as nat));
            assert(merkle::agree_except(middle, after, new_index as nat));
            Self::lemma_index_inserted(
                before,
                old_index,
                self@,
                self.index_of@,
                rank as int,
                value,
                new_index,
            );
        }
        self.set_leaf(low_idx, low_hash, Ghost(hashes), Ghost(middle));
        self.set_leaf(new_index, new_hash, Ghost(middle), Ghost(after));
        self.root()
    }

    proof fn lemma_index_inserted(
        before: Seq<LeafView>,
        old_index: Seq<(Fr, usize)>,
        after: Seq<LeafView>,
        new_index: Seq<(Fr, usize)>,
        rank: int,
        value: Fr,
        position: usize,
    )
        requires
            indexes(before, old_index),
            0 <= rank <= old_index.len(),
            position == before.len(),
            new_index == old_index.insert(rank, (value, position)),
            after.len() == before.len() + 1,
            forall|j: int| 0 <= j < before.len() ==> (#[trigger] after[j]).value == before[j].value,
            after[before.len() as int].value == value@,
            !has_value(before, value@),
            forall|k: int| 0 <= k < rank ==> (#[trigger] old_index[k]).0@ < value@,
            forall|k: int|
                rank <= k < old_index.len() ==> value@ <= (#[trigger] old_index[k]).0@,
        ensures
            indexes(after, new_index),
    {
        assert forall|k: int| rank <= k < old_index.len() implies value@ < (
        #[trigger] old_index[k]).0@ by {
            assert(before[old_index[k].1 as int].value == old_index[k].0@);
        }
        assert forall|k: int| 0 <= k < new_index.len() implies (#[trigger] new_index[k]).1
            < after.len() && after[new_index[k].1 as int].value == new_index[k].0@ by {
            if k < rank {
                assert(new_index[k] == old_index[k]);
            } else if k > rank {
                assert(new_index[k] == old_index[k - 1]);
            }
        }
        assert forall|k: int, l: int| 0 <= k < l < new_index.len() implies (
        #[trigger] new_index[k]).0@ < (#[trigger] new_index[l]).0@ by {
            if k < rank {
                assert(new_index[k] == old_index[k]);
            } else if k > rank {
                assert(new_index[k] == old_index[k - 1]);
            }
            if l < rank {
                assert(new_index[l] == old_index[l]);
            } else if l > rank {
                assert(new_index[l] == old_index[l - 1]);
            }
        }
        assert forall|i: int| 0 <= i < after.len() implies lists(
            new_index,
            i,
            (#[trigger] after[i]).value,
        ) by {
            if i < before.len() {
                assert(lists(old_index, i, before[i].value));
                let k = choose|k: int|
                    0 <= k < old_index.len() && (#[trigger] old_index[k]).1 == i
                        && old_index[k].0@ == before[i].value;
                assert(before[i].value == after[i].value);
                if k < rank {
                    assert(new_index[k] == old_index[k]);
                } else {
                    assert(new_index[k + 1] == old_index[k]);
                }
            } else {
                assert(new_index[rank] == (value, position));
            }
        }
    }

    /// The sibling path of leaf `idx`, read from the cached node hashes.
    fn path_for(&self, idx: usize) -> (path: Vec<Fr>)
        requires
            self.well_formed(),
        ensures
            field::fr_values(path@) == merkle::tree_path(leaf_hashes(self@), idx as nat),
    {
        let ghost hashes = leaf_hashes(self@);
        let ghost whole = merkle::tree_path(hashes, idx as nat);
        let mut path: Vec<Fr> = Vec::new();
        let mut cur_idx: usize = idx;
        let mut d: usize = 0;
        assert(field::fr_values(path@) + whole =~= whole);
        while d < TREE_DEPTH
            invariant
                d <= TREE_DEPTH,
                self.well_formed(),
                hashes == leaf_hashes(self@),
                whole == merkle::tree_path(hashes, idx as nat),
                field::fr_values(path@) + merkle::path_above(hashes, d as nat, cur_idx as nat)
                    == whole,
            decreases TREE_DEPTH - d,
        {
            let sibling = self.cached(d, sibling_index(cur_idx), Ghost(hashes));
            let ghost above = merkle::path_above(hashes, d as nat, cur_idx as nat);
            let ghost walked = field::fr_values(path@);
            path.push(sibling);
            assert(cur_idx >> 1 == cur_idx / 2) by (bit_vector);
            cur_idx = cur_idx >> 1;
            d += 1;
            proof {
                assert(field::fr_values(path@) =~= walked.push(sibling@));
                assert(field::fr_values(path@) + merkle::path_above(
                    hashes,
                    d as nat,
                    cur_idx as nat,
                ) =~= walked + above);
            }
        }
        assert(field::fr_values(path@) + merkle::path_above(hashes, d as nat, cur_idx as nat)
            =~= field::fr_values(path@));
        path
    }

    /// Build a non-membership witness for `target`. It may be asked for a member too, the
    /// zero sentinel included: the witness then does not verify.
    pub fn prove_non_membership(&self, target: Fr) -> (r: NonMembershipWitness)
        requires
            self.well_formed(),
        ensures
            r@ == witness_for(self@, target@),
            has_value(self@, target@) ==> !shows_absence(
                accumulator_root(self@),
                target@,
                r@,
            ),
    {
        proof {
            if has_value(self@, target@) {
                member_gets_no_valid_witness(self@, target@);
            }
        }
        let low_idx = self.find_low_leaf_index(target);
        NonMembershipWitness {
            low_leaf: self.leaves[low_idx],
            low_leaf_index: low_idx as u64,
            sibling_path: self.path_for(low_idx),
        }
    }

    /// Rebuild the accumulator as it stood after the first `count` values.
    pub fn replay(values: &[Fr], count: usize) -> (r: NullifierTree)
        requires
            count <= values@.len(),
        ensures
            r.well_formed(),
            r@ == replayed(field::fr_values(values@).take(count as int)),
    {
        let mut tree = NullifierTree::new();
        let ghost all = field::fr_values(values@);
        let mut i: usize = 0;
        assert(all.take(0).len() == 0);
        while i < count
            invariant
                i <= count <= values@.len(),
                all == field::fr_values(values@),
                tree.well_formed(),
                tree@ == replayed(all.take(i as int)),
            decreases count - i,
        {
            tree.insert(values[i]);
            i += 1;
            proof {
                assert(all.take(i as int).drop_last() =~= all.take(i - 1));
                assert(all.take(i as int).last() == values@[i - 1]@);
            }
        }
        tree
    }
}

impl Default for NullifierTree {
    fn default() -> (r: NullifierTree)
        ensures
            r.well_formed(),
            r@ == initial_leaves(),
    {
        NullifierTree::new()
    }
}

/// In a linked list every positive target has exactly one low leaf.
pub proof fn lemma_low_leaf_exists(leaves: Seq<LeafView>, target: nat)
    requires
        is_linked_list(leaves),
        target > 0,
    ensures
        is_low(leaves, low_index(leaves, target), target),
{
    let i = lemma_largest_below(leaves, leaves.len() as int, target);
    assert(is_low(leaves, i, target));
}

/// Among the first `n` leaves, one holds the largest value below the target.
proof fn lemma_largest_below(leaves: Seq<LeafView>, n: int, target: nat) -> (i: int)
    requires
        is_linked_list(leaves),
        target > 0,
        0 < n <= leaves.len(),
    ensures
        0 <= i < n,
        leaves[i].value < target,
        forall|j: int|
            0 <= j < n && (#[trigger] leaves[j]).value < target ==> leaves[j].value
                <= leaves[i].value,
    decreases n,
{
    if n == 1 {
        0
    } else {
        let i = lemma_largest_below(leaves, n - 1, target);
        if leaves[n - 1].value < target && leaves[n - 1].value > leaves[i].value {
            n - 1
        } else {
            i
        }
    }
}

/// In a linked list the low leaf of a target is unique.
pub proof fn lemma_low_leaf_unique(leaves: Seq<LeafView>, i: int, target: nat)
    requires
        is_linked_list(leaves),
        is_low(leaves, i, target),
    ensures
        low_index(leaves, target) == i,
{
    let l = low_index(leaves, target);
    assert(is_low(leaves, l, target));
    assert(leaves[i].value <= leaves[l].value);
    assert(leaves[l].value <= leaves[i].value);
    if l < i {
        assert(leaves[l].value != leaves[i].value);
    } else if i < l {
        assert(leaves[i].value != leaves[l].value);
    }
}

/// Insertion keeps the linked list: sorted, without gaps, each value once.
pub proof fn insertion_keeps_linked_list(leaves: Seq<LeafView>, value: nat)
    requires
        is_linked_list(leaves),
        value < field::fr_modulus(),
    ensures
        is_linked_list(inserted(leaves, value)),
        inserted(leaves, value).len() == leaves.len() + if has_value(leaves, value) {
            0int
        } else {
            1int
        },
{
    if !has_value(leaves, value) {
        assert(value > 0) by {
            assert(leaves[0].value == 0);
        }
        lemma_low_leaf_exists(leaves, value);
        let i = low_index(leaves, value);
        let low = leaves[i];
        let n = leaves.len() as int;
        let after = inserted(leaves, value);
        assert(links_to_successor(leaves, i));
        assert forall|j: int| 0 <= j < n implies (#[trigger] after[j]).value == leaves[j].value by {}
        assert(after[n].value == value);
        assert forall|j: int| 0 <= j < n implies (#[trigger] leaves[j]).value != value by {}
        assert forall|j: int, k: int| 0 <= j < k < after.len() implies (#[trigger] after[j]).value
            != (#[trigger] after[k]).value by {
            if k < n {
                assert(leaves[j].value != leaves[k].value);
            } else {
                assert(leaves[j].value != value);
            }
        }
        assert forall|j: int| 0 <= j < after.len() implies #[trigger] links_to_successor(
            after,
            j,
        ) by {
            if j < n {
                assert(links_to_successor(leaves, j));
            }
            let leaf = after[j];
            assert forall|k: int|
                0 <= k < after.len() && leaf.value < (#[trigger] after[k]).value implies leaf.next_value
                <= after[k].value by {
                if k < n {
                    assert(leaves[k].value == after[k].value);
                    if j == i {
                        if leaves[k].value < value {
                            assert(leaves[k].value <= low.value);
                        }
                    }
                } else if j < n && j != i {
                    assert(leaves[j].value <= low.value);
                    assert(links_to_successor(leaves, j));
                    assert(leaves[i].value == low.value);
                    assert(leaves[j].value != leaves[i].value);
                    assert(leaves[j].next_value <= leaves[i].value);
                }
            }
            if j == n {
                if low.next_value == max_value() && low.next_index == 0 && (forall|k: int|
                    0 <= k < leaves.len() ==> (#[trigger] leaves[k]).value <= low.value) {
                    assert forall|k: int| 0 <= k < after.len() implies (#[trigger] after[k]).value
                        <= leaf.value by {
                        if k < n {
                            assert(leaves[k].value <= low.value);
                        }
                    }
                } else {
                    let s = low.next_index as int;
                    assert(leaves[s].value == low.next_value);
                    assert(after[s].value == leaves[s].value);
                    assert(leaves[s].value != value);
                    if low.next_value < value {
                        assert(leaves[s].value <= low.value);
                    }
                }
            } else if j != i {
                if leaf.next_value == max_value() && leaf.next_index == 0 && (forall|k: int|
                    0 <= k < leaves.len() ==> (#[trigger] leaves[k]).value <= leaf.value) {
                    assert(leaves[i].value <= leaf.value);
                    assert(leaves[j].value != leaves[i].value);
                    if leaf.value < value {
                        assert(leaves[j].value <= low.value);
                    }
                    assert forall|k: int| 0 <= k < after.len() implies (#[trigger] after[k]).value
                        <= leaf.value by {
                        if k < n {
                            assert(leaves[k].value <= leaf.value);
                        }
                    }
                } else {
                    let s = leaf.next_index as int;
                    assert(leaves[s].value == leaf.next_value);
                    assert(after[s].value == leaves[s].value);
                }
            }
        }
    }
}

/// A value that was never inserted, strictly between the two sentinels, gets a
/// witness that verifies.
pub proof fn absent_value_has_a_valid_witness(leaves: Seq<LeafView>, target: nat)
    requires
        is_linked_list(leaves),
        leaves.len() <= pow2(32),
        0 < target < max_value(),
        !has_value(leaves, target),
    ensures
        shows_absence(accumulator_root(leaves), target, witness_for(leaves, target)),
{
    lemma_low_leaf_exists(leaves, target);
    let i = low_index(leaves, target);
    let low = leaves[i];
    let hashes = leaf_hashes(leaves);
    assert(links_to_successor(leaves, i));
    if low.next_value <= target {
        let s = low.next_index as int;
        assert(leaves[s].value == low.next_value);
        assert(leaves[s].value != target);
        assert(leaves[s].value <= low.value);
    }
    merkle::lemma_path_leads_to_root(hashes, 0, i as nat);
    merkle::lemma_ancestor_zero(i as nat, 32);
    assert(hashes[i] == leaf_hash(low));
}

/// The witness that an accumulator gives for one of its members, the zero sentinel among them,
/// does not verify.
pub proof fn member_gets_no_valid_witness(leaves: Seq<LeafView>, target: nat)
    requires
        is_linked_list(leaves),
        has_value(leaves, target),
    ensures
        !shows_absence(accumulator_root(leaves), target, witness_for(leaves, target)),
{
    if target > 0 {
        lemma_low_leaf_exists(leaves, target);
        let i = low_index(leaves, target);
        let m = choose|m: int| 0 <= m < leaves.len() && (#[trigger] leaves[m]).value == target;
        assert(links_to_successor(leaves, i));
        assert(leaves[i].value < leaves[m].value);
    }
}

/// Somebody found an input of the hash, of two or three elements, whose hash is the zero
/// element that stands for an unfilled leaf.
pub open spec fn zero_preimage_exists() -> bool {
    exists|s: Seq<nat>| 2 <= s.len() <= 3 && #[trigger] poseidon::poseidon(s) == 0
}

/// No witness at all, however it was made, verifies for a member against the root
/// of an accumulator, unless there is a collision of the hash or a preimage of zero.
#[verifier::spinoff_prover]
pub proof fn no_witness_verifies_for_a_member(
    leaves: Seq<LeafView>,
    target: nat,
    witness: WitnessView,
)
    requires
        is_linked_list(leaves),
        has_value(leaves, target),
        shows_absence(accumulator_root(leaves), target, witness),
    ensures
        merkle::collision_exists() || zero_preimage_exists(),
{
    let hashes = leaf_hashes(leaves);
    let low = witness.low_leaf;
    let input = seq![low.value, low.next_value, low.next_index];
    let n = witness.sibling_path.len();
    let depth = TREE_DEPTH as nat;
    merkle::lemma_opening_hits_node(
        hashes,
        leaf_hash(low),
        witness.low_leaf_index,
        witness.sibling_path,
        depth,
        0,
    );
    if !merkle::collision_exists() {
        if n <= depth {
            let up = (depth - n) as nat;
            let j = choose|j: nat| leaf_hash(low) == #[trigger] merkle::node(hashes, up, j);
            if up > 0 {
                let left = merkle::node(hashes, (up - 1) as nat, 2 * j);
                let right = merkle::node(hashes, (up - 1) as nat, 2 * j + 1);
                let pair = seq![left, right];
                assert(merkle::node(hashes, up, j) == merkle::combined(left, right));
                assert(poseidon::poseidon(input) == poseidon::poseidon(pair));
                assert(input.len() == 3 && pair.len() == 2);
                assert(merkle::collision(input, pair));
            } else if j < leaves.len() {
                let leaf = leaves[j as int];
                let other = seq![leaf.value, leaf.next_value, leaf.next_index];
                assert(hashes[j as int] == leaf_hash(leaf));
                assert(!merkle::collision(input, other));
                assert(input[0] == other[0] && input[1] == other[1]);
                assert(links_to_successor(leaves, j as int));
                let m = choose|m: int|
                    0 <= m < leaves.len() && (#[trigger] leaves[m]).value == target;
                assert(leaf.next_value <= leaves[m].value);
            } else {
                assert(poseidon::poseidon(input) == 0);
            }
        } else {
            let (l, r, j) = choose|l: nat, r: nat, j: nat|
                #[trigger] merkle::combined(l, r) == #[trigger] merkle::leaf_at(hashes, j);
            let pair = seq![l, r];
            if j < leaves.len() {
                let leaf = leaves[j as int];
                let other = seq![leaf.value, leaf.next_value, leaf.next_index];
                assert(hashes[j as int] == leaf_hash(leaf));
                assert(pair.len() == 2 && other.len() == 3);
                assert(merkle::combined(l, r) == merkle::leaf_at(hashes, j));
                assert(poseidon::poseidon(pair) == poseidon::poseidon(other));
                assert(merkle::collision(pair, other));
            } else {
                assert(poseidon::poseidon(pair) == 0);
            }
        }
    }
}

/// Insertion adds the value and nothing else, and loses nothing.
pub proof fn insertion_adds_exactly_the_value(leaves: Seq<LeafView>, value: nat, other: nat)
    requires
        is_linked_list(leaves),
    ensures
        has_value(inserted(leaves, value), other) <==> has_value(leaves, other) || other == value,
{
    if !has_value(leaves, value) {
        assert(value > 0) by {
            assert(leaves[0].value == 0);
        }
        lemma_low_leaf_exists(leaves, value);
        let after = inserted(leaves, value);
        let n = leaves.len() as int;
        assert forall|j: int| 0 <= j < n implies (#[trigger] after[j]).value == leaves[j].value by {}
        assert(after[n].value == value);
        if has_value(leaves, other) {
            let j = choose|j: int| 0 <= j < n && (#[trigger] leaves[j]).value == other;
            assert(after[j].value == other);
        }
        if has_value(after, other) {
            let j = choose|j: int| 0 <= j < after.len() && (#[trigger] after[j]).value == other;
            if j < n {
                assert(leaves[j].value == other);
            }
        }
    }
}

/// Inserting a member again changes nothing.
pub proof fn second_insertion_changes_nothing(leaves: Seq<LeafView>, value: nat)
    requires
        is_linked_list(leaves),
    ensures
        inserted(inserted(leaves, value), value) == inserted(leaves, value),
{
    insertion_adds_exactly_the_value(leaves, value, value);
}

/// A replayed accumulator is a linked list that holds the sentinel and the replayed
/// values, and nothing else.
pub proof fn replay_holds_exactly_the_values(values: Seq<nat>, other: nat)
    requires
        forall|i: int| 0 <= i < values.len() ==> #[trigger] values[i] < field::fr_modulus(),
    ensures
        is_linked_list(replayed(values)),
        has_value(replayed(values), other) <==> other == 0 || values.contains(other),
        replayed(values).len() <= values.len() + 1,
    decreases values.len(),
{
    if values.len() == 0 {
        let leaves = initial_leaves();
        assert(replayed(values) == leaves);
        assert(links_to_successor(leaves, 0));
        assert(leaves[0].value == 0);
    } else {
        let prior = values.drop_last();
        replay_holds_exactly_the_values(prior, other);
        assert(values.last() == values[values.len() - 1]);
        insertion_keeps_linked_list(replayed(prior), values.last());
        insertion_adds_exactly_the_value(replayed(prior), values.last(), other);
        if prior.contains(other) {
            let i = prior.index_of(other);
            assert(values[i] == other);
        }
        if values.contains(other) && other != values.last() {
            let i = values.index_of(other);
            assert(prior[i] == other);
        }
    }
}

/// A witness is accepted if and only if the value lies strictly between those of its leaf, and
/// the hash of the leaf reaches the root along the path. Nothing else is asked.
pub proof fn witness_is_accepted_where_it_brackets(
    root: Fr,
    target: Fr,
    witness: &NonMembershipWitness,
    r: bool,
    leaf: Fr,
    path: &[Fr],
    reached: Fr,
)
    requires
        call_ensures(verify_nonmembership, (root, target, witness), r),
        call_ensures(IndexedLeaf::hash, (&witness.low_leaf,), leaf),
        path@ == witness.sibling_path@,
        call_ensures(
            merkle::compute_root_from_path,
            (leaf, witness.low_leaf_index as usize, path),
            reached,
        ),
        witness.low_leaf_index <= usize::MAX,
    ensures
        r <==> witness.low_leaf.value@ < target@ && target@ < witness.low_leaf.next_value@
            && reached@ == root@,
        leaf@ == poseidon::poseidon(
            seq![
                witness.low_leaf.value@,
                witness.low_leaf.next_value@,
                witness.low_leaf.next_index as nat,
            ],
        ),
{
}

/// An insertion appends a leaf with the value and changes the one leaf before it in the order:
/// that leaf now points to the new one, which points to where that leaf pointed. All other
/// leaves stay, each at its place. Inserting a member changes nothing.
pub proof fn insertion_appends_and_links(leaves: Seq<LeafView>, value: nat)
    requires
        is_linked_list(leaves),
    ensures
        has_value(leaves, value) ==> inserted(leaves, value) == leaves,
        !has_value(leaves, value) ==> {
            let after = inserted(leaves, value);
            &&& after.len() == leaves.len() + 1
            &&& after.last().value == value
            &&& exists|i: int|
                {
                    &&& 0 <= i < leaves.len()
                    &&& (#[trigger] leaves[i]).value < value
                    &&& value < leaves[i].next_value || leaves[i].next_index == 0
                    &&& after[i] == (LeafView {
                        value: leaves[i].value,
                        next_value: value,
                        next_index: leaves.len(),
                    })
                    &&& after.last().next_value == leaves[i].next_value
                    &&& after.last().next_index == leaves[i].next_index
                    &&& forall|j: int|
                        0 <= j < leaves.len() && j != i ==> #[trigger] after[j] == leaves[j]
                }
        },
{
    if !has_value(leaves, value) {
        assert(value > 0) by {
            assert(leaves[0].value == 0);
        }
        lemma_low_leaf_exists(leaves, value);
        let i = low_index(leaves, value);
        assert(links_to_successor(leaves, i));
        assert(leaves[i].value < value);
        if leaves[i].next_value <= value && leaves[i].next_index != 0 {
            let s = leaves[i].next_index as int;
            assert(leaves[s].value == leaves[i].next_value);
            assert(leaves[s].value != value);
            assert(leaves[s].value <= leaves[i].value);
        }
    }
}

/// The accumulator's root binds its leaves: two lists of the same length, at most 2 to the power
/// 32, with the same root are equal, unless there is a collision of the hash.
pub proof fn accumulator_root_binds_leaves(a: Seq<LeafView>, b: Seq<LeafView>)
    requires
        a.len() == b.len(),
        a.len() <= pow2(32),
        accumulator_root(a) == accumulator_root(b),
    ensures
        a == b || merkle::collision_exists(),
{
    merkle::root_binds_leaves(leaf_hashes(a), leaf_hashes(b));
    if !merkle::collision_exists() {
        assert forall|i: int| 0 <= i < a.len() implies a[i] == b[i] by {
            let x = seq![a[i].value, a[i].next_value, a[i].next_index];
            let y = seq![b[i].value, b[i].next_value, b[i].next_index];
            assert(leaf_hashes(a)[i] == leaf_hashes(b)[i]);
            assert(!merkle::collision(x, y));
            assert(x[0] == y[0] && x[1] == y[1] && x[2] == y[2]);
        }
        assert(a =~= b);
    }
}

/// A witness that an accumulator gives verifies under its root if and only if the value is no
/// member and lies strictly between the sentinels.
pub proof fn given_witness_verifies_for_absent_values(
    tree: &NullifierTree,
    target: Fr,
    witness: NonMembershipWitness,
    root: Fr,
    r: bool,
    member: bool,
)
    requires
        tree.well_formed(),
        tree@.len() <= pow2(32),
        target@ < field::fr_modulus(),
        call_ensures(NullifierTree::prove_non_membership, (tree, target), witness),
        call_ensures(NullifierTree::root, (tree,), root),
        call_ensures(NullifierTree::contains, (tree, target), member),
        call_ensures(verify_nonmembership, (root, target, &witness), r),
    ensures
        member <==> exists|i: int| 0 <= i < tree@.len() && (#[trigger] tree@[i]).value == target@,
        r <==> !member && target@ != field::fr_modulus() - 1,
{
    if !member && target@ != field::fr_modulus() - 1 {
        assert(tree@[0].value == 0);
        absent_value_has_a_valid_witness(tree@, target@);
    }
    if !member && target@ == field::fr_modulus() - 1 {
        assert(tree@[0].value == 0);
        lemma_low_leaf_exists(tree@, target@);
        let i = low_index(tree@, target@);
        assert(links_to_successor(tree@, i));
        if tree@[i].next_index != 0 || tree@[i].next_value != max_value() {
            let s = tree@[i].next_index as int;
            assert(tree@[s].value < field::fr_modulus());
        }
    }
}

/// Replaying is inserting one by one, from an accumulator that holds the zero sentinel alone,
/// which points beyond every nullifier; only the first `count` values are replayed.
pub proof fn replay_inserts_one_by_one(
    values: &[Fr],
    count: usize,
    longer: NullifierTree,
    shorter: NullifierTree,
)
    requires
        count < values@.len(),
        call_ensures(NullifierTree::replay, (values, count), shorter),
        call_ensures(NullifierTree::replay, (values, (count + 1) as usize), longer),
    ensures
        longer@ == inserted(shorter@, values@[count as int]@),
        count == 0 ==> shorter@ == seq![
            LeafView { value: 0, next_value: (field::fr_modulus() - 1) as nat, next_index: 0 },
        ],
{
    let all = field::fr_values(values@);
    assert(all.take(count + 1).drop_last() =~= all.take(count as int));
    assert(all.take(count + 1).last() == values@[count as int]@);
    assert(values@.len() == values.len());
    assert(all.take(0).len() == 0);
}

} // verus!
