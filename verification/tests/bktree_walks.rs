use bkchainsaw::bk::{BkInRam, BkInRamAllocator, BkInRamTree};
use bkchainsaw::bknode::{BkNode, BkNodeMut};
use bkchainsaw::bktree::find::BkFind;
use bkchainsaw::bktree::preorder::BkPreOrder;
use bkchainsaw::bktree::{BkTree, BkTreeAdd};
use bkchainsaw::keys::{StringKey, U64Key};
use bkchainsaw::metric::hamming::HammingMetric;
use bkchainsaw::metric::strlen::StrLenMetric;
use bkchainsaw::nodeallocator::NodeAllocator;

fn hamming_tree() -> BkInRamTree<U64Key, HammingMetric<u64>> {
    BkInRamTree::new(U64Key, HammingMetric::default())
}

fn strlen_tree() -> BkInRamTree<StringKey, StrLenMetric> {
    BkInRamTree::new(StringKey, StrLenMetric)
}

fn sorted<T: Ord>(mut items: Vec<T>) -> Vec<T> {
    items.sort();
    items
}

#[test]
fn can_construct_empty_tree() {
    let tree = hamming_tree();
    println!("Empty Tree: {:?}", tree);
    assert_eq!(0, tree.len());
    assert_eq!(None, tree.root());
    assert!(tree.find_each(&0, 64).is_empty());
    assert!(tree.preorder_each().is_empty());
}

#[test]
fn can_add_one_value() {
    let mut tree = hamming_tree();
    tree.add(&0u64);
    println!("Zero Tree: {:?}", tree);
    assert_eq!(1, tree.len());
    assert_eq!(Some(0), tree.root());
    assert_eq!(vec![(0, 0, 0u64)], tree.preorder_each());
}

#[test]
fn can_add_repeated_roots() {
    let mut tree = hamming_tree();
    tree.add(&0u64);
    tree.add(&0u64);
    tree.add(&0u64);
    println!("Zeros Tree: {:?}", tree);
    assert_eq!(1, tree.len());
    assert_eq!(0, tree.max_depth_hint());
}

#[test]
fn can_add_repeated_children() {
    let mut tree = hamming_tree();
    tree.add(&0u64);
    tree.add(&1u64);
    tree.add(&1u64);
    tree.add(&1u64);
    println!("Ones Tree: {:?}", tree);
    assert_eq!(2, tree.len());
    assert_eq!(1, tree.max_depth_hint());
    assert_eq!(vec![(0, 1, 0u64), (1, 0, 1)], tree.preorder_each());
}

#[test]
fn can_add_distinct_values() {
    let mut tree = hamming_tree();
    tree.add(&0u64);
    tree.add(&1u64);
    tree.add(&2u64);
    tree.add(&3u64);
    println!("Many Tree: {:?}", tree);
    // The root is 0.  Its slot 1 holds 1, whose slot 2 holds 2; its slot 2
    // holds 3.
    assert_eq!(4, tree.len());
    assert_eq!(2, tree.max_depth_hint());
    assert_eq!(&0, tree.node(0).key());
    assert_eq!(Some(1), tree.node(0).child_at(1));
    assert_eq!(Some(3), tree.node(0).child_at(2));
    assert_eq!(&1, tree.node(1).key());
    assert_eq!(Some(2), tree.node(1).child_at(2));
    assert_eq!(&2, tree.node(2).key());
    assert_eq!(&3, tree.node(3).key());
    assert_eq!(vec![(2, 3), (1, 1)], tree.node(0).children_vector());
    assert_eq!(
        sorted(tree.find_each(&0, 1)),
        vec![(0, 0u64), (1, 1), (1, 2)]
    );
}

#[test]
fn can_add_distinct_values_in_reverse() {
    let mut tree = hamming_tree();
    tree.add(&3u64);
    tree.add(&2u64);
    tree.add(&1u64);
    tree.add(&0u64);
    println!("Many Tree Reversed: {:?}", tree);
    assert_eq!(4, tree.len());
    assert_eq!(&3, tree.node(0).key());
    // The shape differs from that of the other order, the answers do not.
    assert_eq!(
        sorted(tree.find_each(&0, 1)),
        vec![(0, 0u64), (1, 1), (1, 2)]
    );
}

#[test]
fn can_construct_empty_string_tree() {
    let tree = strlen_tree();
    println!("Empty string tree: {:?}", tree);
    assert!(tree.find_each("foo", 100).is_empty());
}

#[test]
fn can_add_empty_string() {
    let mut tree = strlen_tree();
    tree.add("");
    println!("empty string tree: {:?}", tree);
    assert_eq!(vec![(0, String::new())], tree.find_each("", 0));
    assert_eq!(vec![(3, String::new())], tree.find_each("foo", 3));
    assert!(tree.find_each("foo", 2).is_empty());
}

#[test]
fn can_add_string() {
    let mut tree = strlen_tree();
    tree.add("foo");
    println!("foo string tree: {:?}", tree);
    assert_eq!(vec![(0, 0, "foo".to_string())], tree.preorder_each());
}

#[test]
fn can_add_many_strings() {
    let mut tree = strlen_tree();
    tree.add("foo");
    tree.add("foo");
    tree.add("bar");
    tree.add("baz");
    tree.add("left");
    tree.add("ship");
    println!("many string tree: {:?}", tree);
    assert_eq!(5, tree.len());
    // Keys of one length hang below each other in slot 0.
    assert_eq!(
        tree.preorder_each(),
        vec![
            (0, 2, "foo".to_string()),
            (0, 1, "bar".to_string()),
            (0, 0, "baz".to_string()),
            (1, 1, "left".to_string()),
            (0, 0, "ship".to_string()),
        ]
    );
}

#[test]
fn can_add_find_exact_match() {
    let mut tree = strlen_tree();
    tree.add("foo");
    tree.add("bar");
    tree.add("baz");
    tree.add("left");
    tree.add("ship");
    let found = BkFind::new(&tree, 0, "foo").each().unwrap();
    let results: Vec<String> = found.into_iter().map(|(_, k)| k).collect();
    assert_eq!(vec!["foo", "bar", "baz"], results);
}

#[test]
fn can_add_find_distant_match() {
    let mut tree = strlen_tree();
    tree.add("quux");
    tree.add("foo");
    tree.add("bar");
    tree.add("baz");
    tree.add("left");
    tree.add("ship");
    let found = BkFind::new(&tree, 1, "foo").each().unwrap();
    let results: Vec<String> = found.into_iter().map(|(_, k)| k).collect();
    assert_eq!(vec!["quux", "left", "ship", "foo", "bar", "baz"], results);
}

#[test]
fn string_search_by_tolerance() {
    let mut tree = strlen_tree();
    for key in ["foo", "bar", "baz", "left", "ship"] {
        tree.add(key);
    }
    let exact: Vec<String> = tree.find_each("foo", 0).into_iter().map(|(_, k)| k).collect();
    assert_eq!(sorted(exact), vec!["bar", "baz", "foo"]);
    tree.add("quux");
    let near = tree.find_each("foo", 1);
    assert_eq!(
        sorted(near),
        vec![
            (0, "bar".to_string()),
            (0, "baz".to_string()),
            (0, "foo".to_string()),
            (1, "left".to_string()),
            (1, "quux".to_string()),
            (1, "ship".to_string()),
        ]
    );
}

#[test]
fn search_finds_what_a_scan_finds() {
    let keys: Vec<u64> = (0..200u64).map(|i| i.wrapping_mul(0x9E37_79B9_7F4A_7C15) >> 40).collect();
    let mut tree = hamming_tree();
    let mut reversed = hamming_tree();
    for key in keys.iter() {
        tree.add(key);
    }
    for key in keys.iter().rev() {
        reversed.add(key);
    }
    let mut distinct = keys.clone();
    distinct.sort();
    distinct.dedup();
    assert_eq!(distinct.len(), tree.len());
    for needle in [0u64, 1, 0xFFFF, keys[17], keys[99] ^ 5] {
        for tolerance in [0usize, 1, 3, 8, 64] {
            let expected: Vec<(usize, u64)> = sorted(
                distinct
                    .iter()
                    .map(|k| ((k ^ needle).count_ones() as usize, *k))
                    .filter(|(d, _)| *d <= tolerance)
                    .collect(),
            );
            assert_eq!(expected, sorted(tree.find_each(&needle, tolerance)));
            assert_eq!(expected, sorted(reversed.find_each(&needle, tolerance)));
        }
    }
}

#[test]
fn adding_twice_changes_nothing() {
    let mut tree = hamming_tree();
    for key in [9u64, 4, 7, 12, 1] {
        tree.add(&key);
    }
    let nodes = tree.len();
    let depth = tree.max_depth_hint();
    let walk = tree.preorder_each();
    let found = tree.find_each(&5, 2);
    tree.add(&7);
    tree.add(&9);
    assert_eq!(nodes, tree.len());
    assert_eq!(depth, tree.max_depth_hint());
    assert_eq!(walk, tree.preorder_each());
    assert_eq!(found, tree.find_each(&5, 2));
}

#[test]
fn tolerance_at_the_limit_finds_everything() {
    let mut tree = hamming_tree();
    for key in [0u64, u64::MAX, 5] {
        tree.add(&key);
    }
    assert_eq!(3, tree.find_each(&0, usize::MAX).len());
    assert_eq!(
        sorted(tree.find_each(&u64::MAX, 0)),
        vec![(0, u64::MAX)]
    );
}

#[test]
fn walk_with_a_stack_of_its_own() {
    let mut tree = hamming_tree();
    for key in [0u64, 1, 2, 3, 7] {
        tree.add(&key);
    }
    let walk = BkPreOrder::new(&tree).each_stacksafe().unwrap();
    assert_eq!(walk, BkPreOrder::new(&tree).each().unwrap());
    assert_eq!(
        walk,
        vec![(0, 3, 0u64), (1, 1, 1), (2, 0, 2), (2, 0, 3), (3, 0, 7)]
    );
}

#[test]
fn a_node_keeps_its_children_by_distance() {
    let mut node = BkInRam::new(10u64);
    assert_eq!(&10, node.key());
    assert!(!node.has_child_at(0));
    assert_eq!(None, node.child_at(3));
    assert!(node.children_vector().is_empty());
    assert_eq!(0, node.child_count());
    assert_eq!(None, node.farthest_slot());
    node.set_child_node(3, 7);
    node.set_child_node(1, 4);
    assert!(node.has_child_at(3));
    assert!(node.has_child_at(1));
    assert!(!node.has_child_at(2));
    assert_eq!(Some(7), node.child_at(3));
    assert_eq!(2, node.child_count());
    assert_eq!(Some(3), node.farthest_slot());
    // The farthest child comes first.
    assert_eq!(vec![(3, 7), (1, 4)], node.children_iter());
    assert_eq!(node.children_iter(), node.children_vector());
}

#[test]
fn an_arena_numbers_its_nodes() {
    let mut arena: BkInRamAllocator<u64> = BkInRamAllocator::new();
    assert_eq!(0, arena.len());
    assert_eq!(0, arena.new_child(5));
    assert_eq!(1, arena.new_child(6));
    assert_eq!(2, arena.len());
    assert_eq!(&6, arena.node(1).key());
    assert_eq!(0, arena.node(1).dist());
}
