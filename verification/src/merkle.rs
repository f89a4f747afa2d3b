//! Fixed-depth binary hash trees over field elements.
//!
//! A tree has [`TREE_DEPTH`] levels above its leaves. Leaf positions that are not
//! filled hold the zero element, so a subtree without filled leaves has a hash
//! that depends on its depth alone.

use vstd::prelude::*;
use vstd::arithmetic::power2::pow2;
use crate::field;
use crate::field::Fr;
use crate::poseidon;
use crate::poseidon::Hasher;

verus! {

/// Depth of every tree: room for 2 to the power 32 leaves.
pub const TREE_DEPTH: usize = 32;

/// The leaf at a position, zero where the tree is not filled.
pub open spec fn leaf_at(leaves: Seq<nat>, i: nat) -> nat {
    if i < leaves.len() {
        leaves[i as int]
    } else {
        0
    }
}

/// The hash of two children.
pub open spec fn combined(left: nat, right: nat) -> nat {
    poseidon::poseidon(seq![left, right])
}

/// The hash at position `i` of the level `d` above the leaves.
pub open spec fn node(leaves: Seq<nat>, d: nat, i: nat) -> nat
    decreases d,
{
    if d == 0 {
        leaf_at(leaves, i)
    } else {
        combined(node(leaves, (d - 1) as nat, 2 * i), node(leaves, (d - 1) as nat, 2 * i + 1))
    }
}

/// The hash of a subtree of depth `d` without filled leaves.
pub open spec fn zero_node(d: nat) -> nat
    decreases d,
{
    if d == 0 {
        0
    } else {
        combined(zero_node((d - 1) as nat), zero_node((d - 1) as nat))
    }
}

/// The position `d` levels up from position `i`.
pub open spec fn ancestor(i: nat, d: nat) -> nat
    decreases d,
{
    if d == 0 {
        i
    } else {
        ancestor(i / 2, (d - 1) as nat)
    }
}

/// The other child of the same parent.
pub open spec fn sibling(i: nat) -> nat {
    if i % 2 == 0 {
        i + 1
    } else {
        (i - 1) as nat
    }
}

/// The hash of the parent of position `i`, given the hashes at `i` and at its sibling.
pub open spec fn parent(hash: nat, i: nat, sibling_hash: nat) -> nat {
    if i % 2 == 0 {
        combined(hash, sibling_hash)
    } else {
        combined(sibling_hash, hash)
    }
}

/// The root reached from `leaf` at position `slot` when the siblings on the way
/// up are `path`, lowest first.
pub open spec fn path_root(leaf: nat, slot: nat, path: Seq<nat>) -> nat
    decreases path.len(),
{
    if path.len() == 0 {
        leaf
    } else {
        path_root(parent(leaf, slot, path[0]), slot / 2, path.drop_first())
    }
}

/// The siblings on the way up from position `i` of level `d`, lowest first.
pub open spec fn path_above(leaves: Seq<nat>, d: nat, i: nat) -> Seq<nat>
    decreases TREE_DEPTH - d,
{
    if d >= TREE_DEPTH {
        Seq::empty()
    } else {
        seq![node(leaves, d, sibling(i))] + path_above(leaves, d + 1, i / 2)
    }
}

/// The siblings on the way from the leaf at `slot` to the root, lowest first.
pub open spec fn tree_path(leaves: Seq<nat>, slot: nat) -> Seq<nat> {
    path_above(leaves, 0, slot)
}

/// The root of the tree over `leaves`.
pub open spec fn tree_root(leaves: Seq<nat>) -> nat {
    node(leaves, TREE_DEPTH as nat, 0)
}

/// Two inputs of the hash that differ and hash alike. They are of the same length,
/// or one holds two elements and the other three: the sponge does not tell an input
/// apart from the same input with a zero at the end that fills up its rate, so other
/// pairs of lengths say nothing.
pub open spec fn collision(a: Seq<nat>, b: Seq<nat>) -> bool {
    &&& a != b
    &&& a.len() == b.len() || (2 <= a.len() <= 3 && 2 <= b.len() <= 3)
    &&& poseidon::poseidon(a) == poseidon::poseidon(b)
}

/// Somebody found a [`collision`].
pub open spec fn collision_exists() -> bool {
    exists|a: Seq<nat>, b: Seq<nat>| #[trigger] collision(a, b)
}

/// Climbing `d` levels from a position below 2 to the power `d` ends at zero.
pub proof fn lemma_ancestor_zero(i: nat, d: nat)
    requires
        i < pow2(d),
    ensures
        ancestor(i, d) == 0,
    decreases d,
{
    vstd::arithmetic::power2::lemma2_to64();
    if d > 0 {
        vstd::arithmetic::power2::lemma_pow2_unfold(d);
        lemma_ancestor_zero(i / 2, (d - 1) as nat);
    }
}

/// Climbing one more level halves the position.
pub proof fn lemma_ancestor_step(i: nat, d: nat)
    ensures
        ancestor(i, d + 1) == ancestor(i, d) / 2,
    decreases d,
{
    reveal_with_fuel(ancestor, 2);
    if d > 0 {
        lemma_ancestor_step(i / 2, (d - 1) as nat);
    }
}

pub proof fn lemma_path_len(leaves: Seq<nat>, d: nat, i: nat)
    requires
        d <= TREE_DEPTH,
    ensures
        path_above(leaves, d, i).len() == TREE_DEPTH - d,
    decreases TREE_DEPTH - d,
{
    if d < TREE_DEPTH {
        lemma_path_len(leaves, d + 1, i / 2);
    }
}

/// Walking up from a node along its own path reaches the node above it on the
/// top level.
pub proof fn lemma_path_leads_to_root(leaves: Seq<nat>, d: nat, i: nat)
    requires
        d <= TREE_DEPTH,
    ensures
        path_root(node(leaves, d, i), i, path_above(leaves, d, i)) == node(
            leaves,
            TREE_DEPTH as nat,
            ancestor(i, (TREE_DEPTH - d) as nat),
        ),
    decreases TREE_DEPTH - d,
{
    if d < TREE_DEPTH {
        let path = path_above(leaves, d, i);
        assert(path.drop_first() =~= path_above(leaves, d + 1, i / 2));
        assert(node(leaves, d + 1, i / 2) == parent(node(leaves, d, i), i, path[0])) by {
            let below = node(leaves, (d + 1 - 1) as nat, 2 * (i / 2));
        }
        lemma_path_leads_to_root(leaves, d + 1, i / 2);
    }
}

/// Two sequences of leaves agree at every position but possibly `k`.
pub open spec fn agree_except(a: Seq<nat>, b: Seq<nat>, k: nat) -> bool {
    forall|j: nat| j != k ==> #[trigger] leaf_at(a, j) == leaf_at(b, j)
}

/// A node that is not above position `k` does not depend on the leaf there.
pub proof fn lemma_node_agrees(a: Seq<nat>, b: Seq<nat>, k: nat, d: nat, i: nat)
    requires
        agree_except(a, b, k),
        i != ancestor(k, d),
    ensures
        node(a, d, i) == node(b, d, i),
    decreases d,
{
    if d == 0 {
        assert(leaf_at(a, i) == leaf_at(b, i));
    } else {
        lemma_ancestor_step(k, (d - 1) as nat);
        lemma_node_agrees(a, b, k, (d - 1) as nat, 2 * i);
        lemma_node_agrees(a, b, k, (d - 1) as nat, 2 * i + 1);
    }
}

/// The path of a position does not depend on the leaf at that position.
pub proof fn lemma_path_agrees(a: Seq<nat>, b: Seq<nat>, k: nat, d: nat)
    requires
        agree_except(a, b, k),
        d <= TREE_DEPTH,
    ensures
        path_above(a, d, ancestor(k, d)) == path_above(b, d, ancestor(k, d)),
    decreases TREE_DEPTH - d,
{
    if d < TREE_DEPTH {
        lemma_ancestor_step(k, d);
        lemma_path_agrees(a, b, k, d + 1);
        lemma_node_agrees(a, b, k, d, sibling(ancestor(k, d)));
    }
}

/// Replacing the leaf at `slot` and walking up along the old path gives the root
/// of the tree with the new leaf.
pub proof fn lemma_path_gives_updated_root(a: Seq<nat>, b: Seq<nat>, slot: nat)
    requires
        agree_except(a, b, slot),
        slot < pow2(32),
    ensures
        path_root(leaf_at(b, slot), slot, tree_path(a, slot)) == tree_root(b),
{
    lemma_path_agrees(a, b, slot, 0);
    lemma_path_leads_to_root(b, 0, slot);
    lemma_ancestor_zero(slot, 32);
}

/// One more sibling at the top of a path adds one more step.
proof fn lemma_path_root_last(leaf: nat, slot: nat, path: Seq<nat>)
    requires
        path.len() > 0,
    ensures
        path_root(leaf, slot, path) == parent(
            path_root(leaf, slot, path.drop_last()),
            ancestor(slot, (path.len() - 1) as nat),
            path.last(),
        ),
    decreases path.len(),
{
    if path.len() == 1 {
        assert(path_root(leaf, slot, path) == path_root(
            parent(leaf, slot, path[0]),
            slot / 2,
            path.drop_first(),
        ));
        assert(path_root(leaf, slot, path.drop_last()) == leaf);
    } else {
        let rest = path.drop_first();
        lemma_path_root_last(parent(leaf, slot, path[0]), slot / 2, rest);
        assert(rest.drop_last() =~= path.drop_last().drop_first());
        assert(path.drop_last()[0] == path[0]);
        assert(rest.last() == path.last());
    }
}

/// If two different pairs of children give the same parent, there is a collision.
proof fn lemma_children_bound(a: nat, b: nat, c: nat, d: nat)
    requires
        combined(a, b) == combined(c, d),
        a != c || b != d,
    ensures
        collision_exists(),
{
    let x = seq![a, b];
    let y = seq![c, d];
    assert(x[0] != y[0] || x[1] != y[1]);
    assert(collision(x, y));
}

/// Two leaves that reach the same root from the same position along paths of the
/// same length are equal, unless there is a collision.
pub proof fn lemma_opening_binds(x: nat, y: nat, slot: nat, p: Seq<nat>, q: Seq<nat>)
    requires
        p.len() == q.len(),
        path_root(x, slot, p) == path_root(y, slot, q),
        x != y,
    ensures
        collision_exists(),
    decreases p.len(),
{
    if p.len() > 0 {
        lemma_path_root_last(x, slot, p);
        lemma_path_root_last(y, slot, q);
        let a = path_root(x, slot, p.drop_last());
        let b = path_root(y, slot, q.drop_last());
        if a == b {
            lemma_opening_binds(x, y, slot, p.drop_last(), q.drop_last());
        } else if ancestor(slot, (p.len() - 1) as nat) % 2 == 0 {
            lemma_children_bound(a, p.last(), b, q.last());
        } else {
            lemma_children_bound(p.last(), a, q.last(), b);
        }
    }
}

/// A value that sits `n` steps below a node of level `d` is itself a node of the
/// level that far down; with more than `d` steps, some hash of two elements is a leaf.
pub open spec fn hits_node(leaves: Seq<nat>, x: nat, n: nat, d: nat) -> bool {
    if n <= d {
        exists|j: nat| x == #[trigger] node(leaves, (d - n) as nat, j)
    } else {
        exists|l: nat, r: nat, j: nat| #[trigger] combined(l, r) == #[trigger] leaf_at(leaves, j)
    }
}

proof fn lemma_hits_step(leaves: Seq<nat>, x: nat, n: nat, d: nat)
    requires
        hits_node(leaves, x, n, d),
    ensures
        hits_node(leaves, x, n + 1, d + 1),
{
    if n <= d {
        let j = choose|j: nat| x == #[trigger] node(leaves, (d - n) as nat, j);
        assert(x == node(leaves, (d + 1 - (n + 1)) as nat, j));
    }
}

/// A value that reaches a node of a tree along a path [hits a node](hits_node),
/// unless there is a collision.
pub proof fn lemma_opening_hits_node(
    leaves: Seq<nat>,
    x: nat,
    slot: nat,
    path: Seq<nat>,
    d: nat,
    i: nat,
)
    requires
        path_root(x, slot, path) == node(leaves, d, i),
    ensures
        collision_exists() || hits_node(leaves, x, path.len(), d),
    decreases path.len(),
{
    if path.len() == 0 {
        assert(x == node(leaves, (d - path.len()) as nat, i));
    } else {
        lemma_path_root_last(x, slot, path);
        let below = path_root(x, slot, path.drop_last());
        let side = ancestor(slot, (path.len() - 1) as nat);
        if d == 0 {
            if side % 2 == 0 {
                assert(combined(below, path.last()) == leaf_at(leaves, i));
            } else {
                assert(combined(path.last(), below) == leaf_at(leaves, i));
            }
        } else {
            let left = node(leaves, (d - 1) as nat, 2 * i);
            let right = node(leaves, (d - 1) as nat, 2 * i + 1);
            if side % 2 == 0 {
                if below == left {
                    lemma_opening_hits_node(leaves, x, slot, path.drop_last(), (d - 1) as nat, 2 * i);
                    if !collision_exists() {
                        lemma_hits_step(leaves, x, (path.len() - 1) as nat, (d - 1) as nat);
                    }
                } else {
                    lemma_children_bound(below, path.last(), left, right);
                }
            } else {
                if below == right {
                    lemma_opening_hits_node(
                        leaves,
                        x,
                        slot,
                        path.drop_last(),
                        (d - 1) as nat,
                        2 * i + 1,
                    );
                    if !collision_exists() {
                        lemma_hits_step(leaves, x, (path.len() - 1) as nat, (d - 1) as nat);
                    }
                } else {
                    lemma_children_bound(path.last(), below, left, right);
                }
            }
        }
    }
}

/// The position of the sibling of `i`.
pub(crate) fn sibling_index(i: usize) -> (r: usize)
    ensures
        r == sibling(i as nat),
{
    assert(i % 2 == 0 ==> i ^ 1 == i + 1) by (bit_vector);
    assert(i % 2 == 1 ==> i ^ 1 == i - 1) by (bit_vector);
    i ^ 1
}

/// The hashes of subtrees without filled leaves, by depth.
pub fn zero_hashes(hasher: &Hasher) -> (r: Vec<Fr>)
    ensures
        r@.len() == TREE_DEPTH + 1,
        forall|d: int| 0 <= d <= TREE_DEPTH ==> (#[trigger] r@[d])@ == zero_node(d as nat),
{
    let mut out: Vec<Fr> = Vec::new();
    out.push(Fr::from(0u64));
    let mut d: usize = 0;
    while d < TREE_DEPTH
        invariant
            d <= TREE_DEPTH,
            out@.len() == d + 1,
            forall|e: int| 0 <= e <= d ==> (#[trigger] out@[e])@ == zero_node(e as nat),
        decreases TREE_DEPTH - d,
    {
        let prev = out[d];
        out.push(merkle_combine(hasher, &prev, &prev));
        d += 1;
    }
    out
}

pub(crate) fn merkle_combine(hasher: &Hasher, l: &Fr, r: &Fr) -> (h: Fr)
    ensures
        h@ == combined(l@, r@),
{
    hasher.hash2(*l, *r)
}

/// Root of the empty tree.
pub fn empty_root() -> (r: Fr)
    ensures
        r@ == tree_root(Seq::empty()),
{
    let zeros = zero_hashes(&Hasher::new());
    proof {
        lemma_unfilled(Seq::empty(), TREE_DEPTH as nat, 0);
    }
    zeros[TREE_DEPTH]
}

/// A node of the tree without filled leaves is the zero node of its depth.
pub proof fn lemma_unfilled(leaves: Seq<nat>, d: nat, i: nat)
    requires
        leaves.len() == 0,
    ensures
        node(leaves, d, i) == zero_node(d),
    decreases d,
{
    if d > 0 {
        lemma_unfilled(leaves, (d - 1) as nat, 2 * i);
        lemma_unfilled(leaves, (d - 1) as nat, 2 * i + 1);
    }
}

/// Walk the path from `leaf` at `slot` to the root.
pub fn compute_root_from_path(leaf: Fr, slot: usize, path: &[Fr]) -> (r: Fr)
    ensures
        r@ == path_root(leaf@, slot as nat, field::fr_values(path@)),
{
    root_from_path(&Hasher::new(), leaf, slot as u64, path)
}

pub(crate) fn root_from_path(hasher: &Hasher, leaf: Fr, slot: u64, path: &[Fr]) -> (r: Fr)
    ensures
        r@ == path_root(leaf@, slot as nat, field::fr_values(path@)),
{
    let mut current = leaf;
    let mut idx: u64 = slot;
    let mut d: usize = 0;
    let ghost all = field::fr_values(path@);
    assert(all.skip(0) =~= all);
    while d < path.len()
        invariant
            d <= path@.len(),
            all == field::fr_values(path@),
            path_root(current@, idx as nat, all.skip(d as int)) == path_root(leaf@, slot as nat, all),
        decreases path@.len() - d,
    {
        let sibling_hash = path[d];
        proof {
            assert(all.skip(d as int)[0] == sibling_hash@);
            assert(all.skip(d as int).drop_first() =~= all.skip(d + 1));
            assert(idx >> 1 == idx / 2) by (bit_vector);
        }
        current = if idx % 2 == 0 {
            merkle_combine(hasher, &current, &sibling_hash)
        } else {
            merkle_combine(hasher, &sibling_hash, &current)
        };
        idx = idx >> 1;
        d += 1;
    }
    assert(all.skip(d as int).len() == 0);
    current
}

/// One level of a tree: `level` holds its filled nodes, and beyond them every
/// node is the zero node.
spec fn is_level(leaves: Seq<nat>, d: nat, level: Seq<Fr>) -> bool {
    &&& forall|j: int| 0 <= j < level.len() ==> (#[trigger] level[j])@ == node(leaves, d, j as nat)
    &&& forall|j: nat| j >= level.len() ==> #[trigger] node(leaves, d, j) == zero_node(d)
}

/// The filled nodes of the next level up.
fn collapse_level(hasher: &Hasher, level: &Vec<Fr>, zero: Fr, Ghost(leaves): Ghost<Seq<nat>>, Ghost(d): Ghost<nat>) -> (next: Vec<Fr>)
    requires
        is_level(leaves, d, level@),
        zero@ == zero_node(d),
    ensures
        is_level(leaves, d + 1, next@),
{
    let mut next: Vec<Fr> = Vec::new();
    let mut i: usize = 0;
    while i < level.len()
        invariant
            i <= level@.len() + 1,
            i == 2 * next@.len(),
            is_level(leaves, d, level@),
            zero@ == zero_node(d),
            forall|j: int|
                0 <= j < next@.len() ==> (#[trigger] next@[j])@ == node(leaves, d + 1, j as nat),
        decreases level@.len() + 1 - i,
    {
        let left = level[i];
        let right = if level.len() - i > 1 {
            level[i + 1]
        } else {
            zero
        };
        proof {
            let j = next@.len();
            assert(node(leaves, d, 2 * j) == left@);
            assert(node(leaves, d, 2 * j + 1) == right@);
            assert(node(leaves, d + 1, j) == combined(left@, right@));
        }
        next.push(merkle_combine(hasher, &left, &right));
        if level.len() - i > 1 {
            i += 2;
        } else {
            proof {
                lemma_level_above(leaves, d, level@, next@);
            }
            return next;
        }
    }
    proof {
        lemma_level_above(leaves, d, level@, next@);
    }
    next
}

proof fn lemma_level_above(leaves: Seq<nat>, d: nat, level: Seq<Fr>, next: Seq<Fr>)
    requires
        is_level(leaves, d, level),
        2 * next.len() >= level.len(),
        forall|j: int|
            0 <= j < next.len() ==> (#[trigger] next[j])@ == node(leaves, d + 1, j as nat),
    ensures
        is_level(leaves, d + 1, next),
{
    assert forall|j: nat| j >= next.len() implies #[trigger] node(leaves, d + 1, j) == zero_node(
        d + 1,
    ) by {
        assert(node(leaves, d, 2 * j) == zero_node(d));
        assert(node(leaves, d, 2 * j + 1) == zero_node(d));
    }
}

/// Build the path of position `target_idx` given the hashes of whatever leaves
/// are filled. Positions that are not filled, `target_idx` itself included, count
/// as zero: this serves an existing leaf as well as the next, empty slot.
pub fn merkle_path_for_index(leaf_hashes: &[Fr], target_idx: usize) -> (path: Vec<Fr>)
    ensures
        field::fr_values(path@) == tree_path(field::fr_values(leaf_hashes@), target_idx as nat),
{
    let hasher = Hasher::new();
    let zeros = zero_hashes(&hasher);
    let ghost leaves = field::fr_values(leaf_hashes@);
    let mut path: Vec<Fr> = Vec::new();
    let mut level: Vec<Fr> = crate::coin::copy_frs(leaf_hashes);
    let mut idx: usize = target_idx;
    let mut d: usize = 0;
    assert(field::fr_values(path@) + tree_path(leaves, target_idx as nat) =~= tree_path(
        leaves,
        target_idx as nat,
    ));
    while d < TREE_DEPTH
        invariant
            d <= TREE_DEPTH,
            is_level(leaves, d as nat, level@),
            zeros@.len() == TREE_DEPTH + 1,
            forall|e: int| 0 <= e <= TREE_DEPTH ==> (#[trigger] zeros@[e])@ == zero_node(e as nat),
            field::fr_values(path@) + path_above(leaves, d as nat, idx as nat) == tree_path(
                leaves,
                target_idx as nat,
            ),
        decreases TREE_DEPTH - d,
    {
        let sibling_idx = sibling_index(idx);
        let sibling_hash = if sibling_idx < level.len() {
            level[sibling_idx]
        } else {
            zeros[d]
        };
        assert(idx >> 1 == idx / 2) by (bit_vector);
        let ghost before = field::fr_values(path@);
        path.push(sibling_hash);
        proof {
            let rest = path_above(leaves, d as nat + 1, idx as nat / 2);
            assert(sibling_hash@ == node(leaves, d as nat, sibling(idx as nat)));
            assert(field::fr_values(path@) =~= before.push(sibling_hash@));
            assert(field::fr_values(path@) + rest =~= before + path_above(
                leaves,
                d as nat,
                idx as nat,
            ));
        }
        level = collapse_level(&hasher, &level, zeros[d], Ghost(leaves), Ghost(d as nat));
        idx = idx >> 1;
        d += 1;
    }
    assert(field::fr_values(path@) + path_above(leaves, d as nat, idx as nat) =~= field::fr_values(
        path@,
    ));
    path
}

/// The hash binds bytes: two byte strings of the same length and with the same hash are equal,
/// unless there is a collision.
pub proof fn hash_binds_bytes(a: &[u8], b: &[u8], hash_a: Fr, hash_b: Fr)
    requires
        call_ensures(poseidon::poseidon_hash_bytes, (a,), hash_a),
        call_ensures(poseidon::poseidon_hash_bytes, (b,), hash_b),
        a@.len() == b@.len(),
        hash_a@ == hash_b@,
    ensures
        a@ == b@ || collision_exists(),
{
    lemma_hash_binds_bytes(a@, b@);
}

pub(crate) proof fn lemma_hash_binds_bytes(a: Seq<u8>, b: Seq<u8>)
    requires
        a.len() == b.len(),
        poseidon::poseidon(poseidon::bytes_elements(a)) == poseidon::poseidon(
            poseidon::bytes_elements(b),
        ),
    ensures
        a == b || collision_exists(),
{
    if poseidon::bytes_elements(a) == poseidon::bytes_elements(b) {
        poseidon::elements_determine_bytes(a, b);
    } else {
        assert(collision(poseidon::bytes_elements(a), poseidon::bytes_elements(b)));
    }
}

/// A walk along a path hashes at every step: without siblings the root is the leaf itself; one
/// more sibling at the top is hashed with what the walk had reached, which stands on the left
/// where the bit of the slot for that level is clear and on the right where it is set.
pub proof fn every_sibling_is_hashed(leaf: Fr, slot: usize, path: &[Fr], r: Fr, shorter: &[Fr], below: Fr)
    requires
        call_ensures(compute_root_from_path, (leaf, slot, path), r),
        call_ensures(compute_root_from_path, (leaf, slot, shorter), below),
        path@.len() > 0 ==> shorter@ == path@.drop_last(),
    ensures
        path@.len() == 0 ==> r@ == leaf@,
        path@.len() > 0 && (slot as nat / pow2((path@.len() - 1) as nat)) % 2 == 0 ==> r@
            == poseidon::poseidon(seq![below@, path@.last()@]),
        path@.len() > 0 && (slot as nat / pow2((path@.len() - 1) as nat)) % 2 == 1 ==> r@
            == poseidon::poseidon(seq![path@.last()@, below@]),
{
    if path@.len() > 0 {
        let all = field::fr_values(path@);
        lemma_path_root_last(leaf@, slot as nat, all);
        assert(all.drop_last() =~= field::fr_values(shorter@));
        assert(all.last() == path@.last()@);
        lemma_ancestor_is_quotient(slot as nat, (path@.len() - 1) as nat);
    }
}

/// Climbing `d` levels divides the position by 2 to the power `d`.
proof fn lemma_ancestor_is_quotient(i: nat, d: nat)
    ensures
        ancestor(i, d) == i / pow2(d),
    decreases d,
{
    vstd::arithmetic::power2::lemma2_to64();
    if d == 0 {
        assert(i / pow2(0) == i);
    } else {
        lemma_ancestor_is_quotient(i / 2, (d - 1) as nat);
        vstd::arithmetic::power2::lemma_pow2_unfold(d);
        vstd::arithmetic::power2::lemma_pow2_pos((d - 1) as nat);
        vstd::arithmetic::div_mod::lemma_div_denominator(i as int, 2, pow2((d - 1) as nat) as int);
    }
}

/// A path has a sibling for each level, and from its slot it leads to the root of the tree
/// with any leaf there: to the root of the given leaves with the leaf that stands there, and to
/// that of the leaves with another one put in its place.
pub proof fn path_leads_to_the_root(
    leaf_hashes: &[Fr],
    target_idx: usize,
    path: Vec<Fr>,
    leaf: Fr,
    siblings: &[Fr],
    r: Fr,
)
    requires
        call_ensures(merkle_path_for_index, (leaf_hashes, target_idx), path),
        call_ensures(compute_root_from_path, (leaf, target_idx, siblings), r),
        siblings@ == path@,
        target_idx < pow2(32),
        target_idx <= leaf_hashes@.len(),
    ensures
        path@.len() == 32,
        target_idx < leaf_hashes@.len() ==> r@ == tree_root(
            field::fr_values(leaf_hashes@).update(target_idx as int, leaf@),
        ),
        target_idx == leaf_hashes@.len() ==> r@ == tree_root(
            field::fr_values(leaf_hashes@).push(leaf@),
        ),
{
    let leaves = field::fr_values(leaf_hashes@);
    let changed = if target_idx < leaves.len() {
        leaves.update(target_idx as int, leaf@)
    } else {
        leaves.push(leaf@)
    };
    lemma_path_len(leaves, 0, target_idx as nat);
    assert(field::fr_values(path@).len() == path@.len());
    assert(agree_except(leaves, changed, target_idx as nat));
    lemma_path_gives_updated_root(leaves, changed, target_idx as nat);
}

/// A root binds all leaves: two lists of the same length, at most 2 to the power 32, with the
/// same root are equal, unless there is a collision.
pub proof fn root_binds_leaves(a: Seq<nat>, b: Seq<nat>)
    requires
        a.len() == b.len(),
        a.len() <= pow2(32),
        tree_root(a) == tree_root(b),
    ensures
        a == b || collision_exists(),
{
    if !collision_exists() {
        assert forall|i: int| 0 <= i < a.len() implies a[i] == b[i] by {
            lemma_path_leads_to_root(a, 0, i as nat);
            lemma_path_leads_to_root(b, 0, i as nat);
            lemma_ancestor_zero(i as nat, 32);
            lemma_path_len(a, 0, i as nat);
            lemma_path_len(b, 0, i as nat);
            if a[i] != b[i] {
                lemma_opening_binds(a[i], b[i], i as nat, tree_path(a, i as nat), tree_path(b, i as nat));
            }
        }
        assert(a =~= b);
    }
}

/// The empty tree's root is that of leaves that are all zero, however many.
pub proof fn empty_root_has_zero_leaves(r: Fr, leaves: Seq<nat>)
    requires
        call_ensures(empty_root, (), r),
        forall|i: int| 0 <= i < leaves.len() ==> #[trigger] leaves[i] == 0,
    ensures
        r@ == tree_root(leaves),
{
    lemma_same_leaves_same_node(Seq::empty(), leaves, TREE_DEPTH as nat, 0);
}

proof fn lemma_same_leaves_same_node(a: Seq<nat>, b: Seq<nat>, d: nat, i: nat)
    requires
        forall|j: nat| #[trigger] leaf_at(a, j) == leaf_at(b, j),
    ensures
        node(a, d, i) == node(b, d, i),
    decreases d,
{
    if d == 0 {
        assert(leaf_at(a, i) == leaf_at(b, i));
    } else {
        lemma_same_leaves_same_node(a, b, (d - 1) as nat, 2 * i);
        lemma_same_leaves_same_node(a, b, (d - 1) as nat, 2 * i + 1);
    }
}

/// A collision is of two inputs that differ and have the same hash, and a shorter one is not
/// made into a longer one but where two elements meet three.
pub proof fn collision_is_of_different_inputs(a: Seq<nat>, b: Seq<nat>)
    requires
        collision(a, b),
    ensures
        a != b,
        poseidon::poseidon(a) == poseidon::poseidon(b),
        a.len() != b.len() ==> a.len() + b.len() == 5 && a.len() >= 2 && b.len() >= 2,
{
}

} // verus!
