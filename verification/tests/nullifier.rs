use cloakkchain::nullifier::max_nullifier;
use cloakkchain::{verify_nonmembership, Fr, NullifierTree};

#[test]
fn nullifier_tree_insert_cost_does_not_grow_with_tree_size() {
    fn value(i: u32) -> Fr {
        Fr::from(i as u64 + 1)
    }

    let mut tree = NullifierTree::new();
    let batch = 50u32;
    let t = std::time::Instant::now();
    for i in 0..batch {
        tree.insert(value(i));
    }
    let small_per_insert = t.elapsed() / batch;

    // Grow the tree 8x larger, then time an equal-sized batch again.
    for i in batch..(batch * 8) {
        tree.insert(value(i));
    }
    let t = std::time::Instant::now();
    for i in (batch * 8)..(batch * 9) {
        tree.insert(value(i));
    }
    let large_per_insert = t.elapsed() / batch;

    assert!(
        large_per_insert.as_secs_f64() < small_per_insert.as_secs_f64() * 4.0 + 0.001,
        "insert cost grew from {small_per_insert:?}/insert at a small tree size to \
         {large_per_insert:?}/insert at 8x the size — looks non-incremental"
    );

    let absent = Fr::from(u64::MAX);
    let witness = tree.prove_non_membership(absent);
    assert!(verify_nonmembership(tree.root(), absent, &witness));

    let member = value(batch * 8);
    let w = tree.prove_non_membership(member);
    assert!(!verify_nonmembership(tree.root(), member, &w));
}

#[test]
fn insertion_adds_the_value_and_links_it_in_order() {
    let mut tree = NullifierTree::new();
    for v in [50u64, 10, 30] {
        assert!(!tree.contains(Fr::from(v)));
        let root = tree.insert(Fr::from(v));
        assert_eq!(root, tree.root());
        assert!(tree.contains(Fr::from(v)));
    }
    let witness = tree.prove_non_membership(Fr::from(20u64));
    assert_eq!(witness.low_leaf.value, Fr::from(10u64));
    assert_eq!(witness.low_leaf.next_value, Fr::from(30u64));
    assert_eq!(witness.low_leaf.next_index, 3);
    assert_eq!(witness.low_leaf_index, 2);
    assert!(verify_nonmembership(tree.root(), Fr::from(20u64), &witness));
    // The witness covers the gap and nothing else.
    assert!(verify_nonmembership(tree.root(), Fr::from(29u64), &witness));
    assert!(!verify_nonmembership(tree.root(), Fr::from(30u64), &witness));
    assert!(!verify_nonmembership(tree.root(), Fr::from(10u64), &witness));
    let above = tree.prove_non_membership(Fr::from(60u64));
    assert_eq!(above.low_leaf.next_value, max_nullifier());
}

#[test]
fn second_insertion_changes_nothing() {
    let mut tree = NullifierTree::new();
    tree.insert(Fr::from(5u64));
    let root = tree.root();
    assert_eq!(tree.insert(Fr::from(5u64)), root);
    assert_eq!(tree.insert(Fr::from(0u64)), root);
}

#[test]
fn witness_does_not_outlive_the_insertion() {
    let mut tree = NullifierTree::new();
    tree.insert(Fr::from(8u64));
    let target = Fr::from(5u64);
    let witness = tree.prove_non_membership(target);
    assert!(verify_nonmembership(tree.root(), target, &witness));
    tree.insert(target);
    assert!(!verify_nonmembership(tree.root(), target, &witness));
}

#[test]
fn replay_rebuilds_every_earlier_state() {
    let values: Vec<Fr> = [7u64, 3, 9, 3].iter().map(|v| Fr::from(*v)).collect();
    let mut tree = NullifierTree::new();
    for k in 0..=values.len() {
        assert_eq!(NullifierTree::replay(&values, k).root(), tree.root());
        if k < values.len() {
            tree.insert(values[k]);
        }
    }
    assert_eq!(NullifierTree::default().root(), NullifierTree::new().root());
}

#[test]
fn largest_element_is_the_upper_bound() {
    let top = max_nullifier();
    let tree = NullifierTree::new();
    let w = tree.prove_non_membership(Fr::from(1u64));
    assert_eq!(w.low_leaf.next_value, top);
    assert!(Fr::from(u64::MAX).less_than(&top));
    // The modulus minus one, whose lowest limb is even.
    let mut limbs = top.to_limbs();
    limbs[0] += 1;
    assert!(Fr::from_limbs(limbs).is_none());
}

#[test]
fn zero_has_no_witness_that_verifies() {
    let mut tree = NullifierTree::new();
    for v in [0u64, 7, 3] {
        tree.insert(Fr::from(v));
        for member in [0u64, v] {
            let member = Fr::from(member);
            assert!(tree.contains(member));
            let w = tree.prove_non_membership(member);
            assert!(!verify_nonmembership(tree.root(), member, &w));
        }
    }
    let w = tree.prove_non_membership(Fr::from(0u64));
    assert_eq!(w.low_leaf_index, 0);
    assert_eq!(w.low_leaf.value, Fr::from(0u64));
    assert_eq!(w.low_leaf.next_value, Fr::from(3u64));
    // The witness is the sentinel's: it shows the absence of what lies behind it.
    assert!(verify_nonmembership(tree.root(), Fr::from(1u64), &w));
}
