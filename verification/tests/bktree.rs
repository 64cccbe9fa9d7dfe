use bkchainsaw::bk::BkInRamTree;
use bkchainsaw::bktree::BkTreeAdd;
use bkchainsaw::keys::{StringKey, U64Key};
use bkchainsaw::metric::hamming::HammingMetric;
use bkchainsaw::metric::strlen::StrLenMetric;

fn hamming_tree() -> BkInRamTree<U64Key, HammingMetric<u64>> {
    BkInRamTree::new(U64Key, HammingMetric::default())
}

fn strlen_tree() -> BkInRamTree<StringKey, StrLenMetric> {
    BkInRamTree::new(StringKey, StrLenMetric)
}

fn sorted(mut keys: Vec<String>) -> Vec<String> {
    keys.sort();
    keys
}

#[test]
fn bktree_can_construct_empty_tree() {
    let tree = hamming_tree();
    println!("Empty Tree: {:?}", tree)
}

#[test]
fn bktree_can_add_one_value() {
    let mut tree = hamming_tree();
    tree.add(&0u64);
    println!("Zero Tree: {:?}", tree)
}

#[test]
fn bktree_can_add_repeated_roots() {
    let mut tree = hamming_tree();
    tree.add(&0u64);
    tree.add(&0u64);
    tree.add(&0u64);
    println!("Zeros Tree: {:?}", tree)
}

#[test]
fn bktree_can_add_repeated_children() {
    let mut tree = hamming_tree();
    tree.add(&0u64);
    tree.add(&1u64);
    tree.add(&1u64);
    tree.add(&1u64);
    println!("Ones Tree: {:?}", tree)
}

#[test]
fn bktree_can_add_distinct_values() {
    let mut tree = hamming_tree();
    tree.add(&0u64);
    tree.add(&1u64);
    tree.add(&2u64);
    tree.add(&3u64);
    println!("Many Tree: {:?}", tree)
}

#[test]
fn bktree_can_add_distinct_values_in_reverse() {
    let mut tree = hamming_tree();
    tree.add(&3u64);
    tree.add(&2u64);
    tree.add(&1u64);
    tree.add(&0u64);
    println!("Many Tree Reversed: {:?}", tree)
}

#[test]
fn bktree_can_construct_empty_string_tree() {
    let tree = strlen_tree();
    println!("Empty string tree: {:?}", tree);
}

#[test]
fn bktree_can_add_empty_string() {
    let mut tree = strlen_tree();
    tree.add("");
    println!("empty string tree: {:?}", tree);
}

#[test]
fn bktree_can_add_string() {
    let mut tree = strlen_tree();
    tree.add("foo");
    println!("foo string tree: {:?}", tree);
}

#[test]
fn bktree_can_add_many_strings() {
    let mut tree = strlen_tree();
    tree.add("foo");
    tree.add("foo");
    tree.add("bar");
    tree.add("baz");
    tree.add("left");
    tree.add("ship");
    println!("many string tree: {:?}", tree);
}

#[test]
fn bktree_can_add_find_exact_match() {
    let mut tree = strlen_tree();
    tree.add("foo");
    tree.add("bar");
    tree.add("baz");
    tree.add("left");
    tree.add("ship");
    let results: Vec<String> = tree.find_each("foo", 0).into_iter().map(|(_, k)| k).collect();
    assert_eq!(vec!["foo", "bar", "baz"], results);
}

#[test]
fn bktree_can_add_find_distant_match() {
    let mut tree = strlen_tree();
    tree.add("quux");
    tree.add("foo");
    tree.add("bar");
    tree.add("baz");
    tree.add("left");
    tree.add("ship");
    let results: Vec<String> = tree.find_each("foo", 1).into_iter().map(|(_, k)| k).collect();
    assert_eq!(vec!["quux", "left", "ship", "foo", "bar", "baz"], results);
    assert_eq!(
        sorted(results),
        vec!["bar", "baz", "foo", "left", "quux", "ship"]
    );
}

#[test]
fn preorder_lists_parents_before_children() {
    let mut tree = hamming_tree();
    for key in [0u64, 1, 2, 3] {
        tree.add(&key);
    }
    // 0 is the root; 1 is at distance 1 from it, 3 at distance 2, and 2 is at
    // distance 1 from 0 and 2 from 1.
    assert_eq!(
        tree.preorder_each(),
        vec![(0, 2, 0u64), (1, 1, 1), (2, 0, 2), (2, 0, 3)]
    );
}
