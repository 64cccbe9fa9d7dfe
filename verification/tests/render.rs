use bkchainsaw::array_storage::{FixedKeysConfig, InStorageNode};
use bkchainsaw::bk::BkInRamTree;
use bkchainsaw::bkfile::{header_end, FileDescrHeader, FileSection, FileSections, Header};
use bkchainsaw::bknode::BkNode;
use bkchainsaw::bktree::find::BkFind;
use bkchainsaw::bktree::{BkTree, BkTreeAdd};
use bkchainsaw::error::BkError;
use bkchainsaw::fromfile::{BkTreeFromFile, FromFileAllocator};
use bkchainsaw::keys::U64Key;
use bkchainsaw::metric::hamming::HammingMetric;
use bkchainsaw::render::storage::InFileAllocator;
use bkchainsaw::render::{render, Rendered};

type Tree = BkInRamTree<U64Key, HammingMetric<u64>>;

fn tree_of(keys: &[u64]) -> Tree {
    let mut tree = BkInRamTree::new(U64Key, HammingMetric::default());
    for key in keys {
        tree.add(key);
    }
    tree
}

fn sorted(mut found: Vec<(usize, u64)>) -> Vec<(usize, u64)> {
    found.sort();
    found
}

fn open<'f>(rendered: &'f Rendered) -> BkTreeFromFile<'f, HammingMetric<u64>> {
    BkTreeFromFile::new(
        rendered.config,
        rendered.node_count,
        &rendered.dist,
        &rendered.child_index,
        &rendered.num_children,
        &rendered.keys,
        HammingMetric::default(),
    )
    .unwrap()
}

#[test]
fn the_sections_of_a_small_tree() {
    // 0 is the root; 1 and 3 are its children, at distances 1 and 2; 2 is
    // the child of 1, at distance 2.
    let rendered = render(&tree_of(&[0, 1, 2, 3])).unwrap();
    assert_eq!(
        rendered.config,
        FixedKeysConfig { dist: 1, child_index: 1, num_children: 1, key: 8 }
    );
    assert_eq!(4, rendered.node_count);
    assert_eq!(vec![0, 1, 2, 2], rendered.dist);
    assert_eq!(vec![1, 3, 0, 0], rendered.child_index);
    assert_eq!(vec![2, 1, 0, 0], rendered.num_children);
    let mut keys = vec![0u8; 32];
    keys[8] = 1;
    keys[16] = 3;
    keys[24] = 2;
    assert_eq!(keys, rendered.keys);
}

#[test]
fn the_sections_of_an_empty_tree() {
    let rendered = render(&tree_of(&[])).unwrap();
    assert_eq!(0, rendered.node_count);
    assert!(rendered.dist.is_empty());
    assert!(rendered.child_index.is_empty());
    assert!(rendered.num_children.is_empty());
    assert!(rendered.keys.is_empty());
    let tree = open(&rendered);
    assert_eq!(None, tree.root());
    assert_eq!(Ok(vec![]), tree.find_each(&0, 64));
    assert_eq!(Ok(vec![]), tree.preorder_each());
}

#[test]
fn a_tree_of_many_nodes_takes_wider_entries() {
    let keys: Vec<u64> = (0..300u64).collect();
    let rendered = render(&tree_of(&keys)).unwrap();
    assert_eq!(300, rendered.node_count);
    assert_eq!(2, rendered.config.child_index);
    assert_eq!(1, rendered.config.dist);
    assert_eq!(1, rendered.config.num_children);
    assert_eq!(300, rendered.dist.len());
    assert_eq!(600, rendered.child_index.len());
    assert_eq!(300, rendered.num_children.len());
    assert_eq!(2400, rendered.keys.len());
}

#[test]
fn the_tree_in_the_sections_answers_as_the_tree_in_memory() {
    let keys: Vec<u64> = (0..500u64).map(|i| i.wrapping_mul(0x9E37_79B9_7F4A_7C15) >> 44).collect();
    let tree = tree_of(&keys);
    let rendered = render(&tree).unwrap();
    let stored = open(&rendered);
    assert_eq!(tree.len(), stored.node_count());
    assert_eq!(Ok(tree.preorder_each()), stored.preorder_each());
    for needle in [0u64, 1, 0xFFFFF, keys[3], keys[250] ^ 9, u64::MAX] {
        for tolerance in [0usize, 1, 2, 5, 10, 64, usize::MAX] {
            let expected = sorted(tree.find_each(&needle, tolerance));
            assert_eq!(expected, sorted(stored.find_each(&needle, tolerance).unwrap()));
            let found = BkFind::new(&stored, tolerance, &needle).each().unwrap();
            assert_eq!(expected, sorted(found));
        }
    }
}

#[test]
fn a_file_round_trip() {
    let keys = [17u64, 4, 4, 99, 1 << 40, 0, 23, 5, 1, 255, 256];
    let tree = tree_of(&keys);
    let rendered = render(&tree).unwrap();
    let descr = rendered.describe("2020-02-02T20:20:02+00:00".to_string()).unwrap();
    assert_eq!("2020-02-02T20:20:02+00:00", descr.created_on);
    assert_eq!(10, descr.node_count);
    assert_eq!("", descr.padding);
    assert_eq!(
        descr.section,
        FileSections::layout(&rendered.config, 10, 10, 10, 80).unwrap()
    );
    let encoded = b"an encoded descriptor";
    let file = rendered.to_file(encoded);
    let header = Header::read(&file, true).unwrap();
    assert_eq!(&file[header.descr_start()..header.descr_start() + encoded.len()], encoded);
    let end = header_end(header.descr_start(), encoded.len()).unwrap();
    assert_eq!(0, end % 64);
    let stored =
        BkTreeFromFile::start_query(&file, end, &descr, HammingMetric::<u64>::default()).unwrap();
    for needle in [0u64, 4, 16, 300] {
        for tolerance in [0usize, 1, 3, 64] {
            assert_eq!(
                sorted(tree.find_each(&needle, tolerance)),
                sorted(stored.find_each(&needle, tolerance).unwrap())
            );
        }
    }
    assert_eq!(Ok(tree.preorder_each()), stored.preorder_each());
}

#[test]
fn a_descriptor_that_does_not_fit_is_refused() {
    let rendered = render(&tree_of(&[1, 2, 3])).unwrap();
    let descr = rendered.describe(String::new()).unwrap();
    let file = rendered.to_file(b"");
    let end = header_end(86, 0).unwrap();
    let open = |descr: &FileDescrHeader, file: &[u8]| {
        BkTreeFromFile::start_query(file, end, descr, HammingMetric::<u64>::default()).map(|_| ())
    };
    assert_eq!(Ok(()), open(&descr, &file));

    let mut missing = descr.clone();
    missing.section.num_children = None;
    assert_eq!(Err(BkError::MissingSection), open(&missing, &file));
    let mut missing = descr.clone();
    missing.section.key = None;
    assert_eq!(Err(BkError::MissingSection), open(&missing, &file));

    let with_key = |section: FileSection| {
        let mut other = descr.clone();
        other.section.key = Some(section);
        other
    };
    let key = descr.section.key.unwrap();
    assert_eq!(
        Err(BkError::UnsupportedItemSize),
        open(&with_key(FileSection { item_size: None, ..key }), &file)
    );
    assert_eq!(
        Err(BkError::UnsupportedItemSize),
        open(&with_key(FileSection { item_size: Some(4), ..key }), &file)
    );
    assert_eq!(
        Err(BkError::UnsupportedItemSize),
        open(&with_key(FileSection { item_size: Some(16), ..key }), &file)
    );
    let mut wide = descr.clone();
    wide.section.dist = Some(FileSection { item_size: Some(9), ..descr.section.dist.unwrap() });
    assert_eq!(Err(BkError::UnsupportedItemSize), open(&wide, &file));
    assert_eq!(
        Err(BkError::MalformedSection),
        open(&with_key(FileSection { bytes: key.bytes + 1, ..key }), &file)
    );
    assert_eq!(Err(BkError::MalformedSection), open(&descr, &file[..file.len() - 1]));
    assert!(BkError::MissingSection.is_format_error());
    assert!(BkError::UnsupportedItemSize.is_format_error());
    assert!(BkError::MalformedSection.is_format_error());
}

#[test]
fn truncated_sections_are_reported() {
    let rendered = render(&tree_of(&[0, 1, 2, 3])).unwrap();
    let config = rendered.config;
    let metric = HammingMetric::<u64>::default;
    // The last key is cut short.
    let stored = BkTreeFromFile::new(
        config,
        4,
        &rendered.dist,
        &rendered.child_index,
        &rendered.num_children,
        &rendered.keys[..31],
        metric(),
    )
    .unwrap();
    assert_eq!(Ok(3), stored.key_at(2));
    assert_eq!(Err(BkError::Truncated), stored.key_at(3));
    assert_eq!(Err(BkError::Truncated), stored.key_at(4));
    assert_eq!(Err(BkError::Truncated), stored.find_each(&2, 64));
    assert_eq!(Ok(vec![(0, 0)]), stored.find_each(&0, 0));
    // The distance of the last node is missing.
    let stored = BkTreeFromFile::new(
        config,
        4,
        &rendered.dist[..3],
        &rendered.child_index,
        &rendered.num_children,
        &rendered.keys,
        metric(),
    )
    .unwrap();
    assert_eq!(Ok(vec![(2, 2), (1, 1)]), stored.children_vector(0));
    assert_eq!(Err(BkError::Truncated), stored.children_vector(1));
    assert_eq!(Err(BkError::Truncated), stored.preorder_each());
    // More nodes are counted than are there.
    let stored = BkTreeFromFile::new(
        config,
        5,
        &rendered.dist,
        &rendered.child_index,
        &rendered.num_children,
        &rendered.keys,
        metric(),
    )
    .unwrap();
    assert_eq!(Err(BkError::Truncated), stored.children_vector(4));
    assert_eq!(Err(BkError::Truncated), stored.children_vector(5));
    assert!(BkError::Truncated.is_format_error());
}

#[test]
fn sections_that_hold_no_tree_are_reported() {
    let config = FixedKeysConfig { dist: 1, child_index: 1, num_children: 1, key: 8 };
    let keys = [0u8; 24];
    let metric = HammingMetric::<u64>::default;
    // Node 0 names itself as its child.
    let stored = BkTreeFromFile::new(config, 3, &[0, 1, 1], &[0, 0, 0], &[1, 0, 0], &keys, metric()).unwrap();
    assert_eq!(Err(BkError::MalformedTree), stored.children_vector(0));
    assert_eq!(Err(BkError::MalformedTree), stored.find_each(&0, 64));
    // Node 1 names a child before it.
    let stored = BkTreeFromFile::new(config, 3, &[0, 1, 1], &[1, 1, 0], &[1, 1, 0], &keys, metric()).unwrap();
    assert_eq!(Err(BkError::MalformedTree), stored.children_vector(1));
    // The children of node 0 reach past the last node.
    let stored = BkTreeFromFile::new(config, 3, &[0, 1, 1], &[1, 0, 0], &[3, 0, 0], &keys, metric()).unwrap();
    assert_eq!(Err(BkError::MalformedTree), stored.children_vector(0));
    // Nodes 0 and 1 share a child: the search meets it twice and gives up.
    let stored = BkTreeFromFile::new(config, 3, &[0, 0, 0], &[1, 2, 0], &[2, 1, 0], &keys, metric()).unwrap();
    assert_eq!(Err(BkError::MalformedTree), stored.find_each(&0, 64));
    assert_eq!(Err(BkError::MalformedTree), stored.preorder_each());
    assert!(BkError::MalformedTree.is_format_error());
}

#[test]
fn unsupported_widths_are_refused() {
    let config = FixedKeysConfig { dist: 1, child_index: 1, num_children: 1, key: 4 };
    let opened = BkTreeFromFile::new(config, 0, &[], &[], &[], &[], HammingMetric::<u64>::default());
    assert_eq!(Some(BkError::UnsupportedItemSize), opened.err());
}

#[test]
fn a_view_of_a_node_in_the_sections() {
    let rendered = render(&tree_of(&[0, 1, 2, 3])).unwrap();
    let sections = FromFileAllocator {
        config: rendered.config,
        dist: &rendered.dist,
        child_index: &rendered.child_index,
        num_children: &rendered.num_children,
        keys: &rendered.keys,
    };
    let node = sections.fnode(1);
    assert_eq!(Some(1), node.dist());
    assert_eq!(Some(1), node.child_count());
    assert_eq!(Some(3), node.children_offset());
    assert_eq!(Some(1), node.key_u64());
    assert_eq!(Some(2), open(&rendered).fnode(3).key_u64());
    assert_eq!(None, sections.fnode(4).key_u64());
}

#[test]
fn room_is_handed_out_in_runs() {
    let config = FixedKeysConfig { dist: 1, child_index: 2, num_children: 1, key: 8 };
    let mut sections = InFileAllocator::new(config);
    assert_eq!(0, sections.len());
    assert_eq!(Ok(0), sections.alloc_nodes(1));
    assert_eq!(Ok(1), sections.alloc_nodes(2));
    assert_eq!(3, sections.len());
    assert_eq!(Err(BkError::OutOfStorage), sections.alloc_nodes(usize::MAX / 8));
    assert_eq!(3, sections.len());
    sections.set_key(0, 7);
    sections.set_num_children(0, 2);
    sections.set_child_index(0, 1);
    sections.set_dist(1, 3);
    sections.set_key(2, 0x0100);
    sections.set_child_index(2, 0x0201);
    let rendered = sections.into_rendered();
    assert_eq!(3, rendered.node_count);
    assert_eq!(vec![0, 3, 0], rendered.dist);
    assert_eq!(vec![1, 0, 0, 0, 1, 2], rendered.child_index);
    assert_eq!(vec![2, 0, 0], rendered.num_children);
    assert_eq!(
        vec![7, 0, 0, 0, 0, 0, 0, 0, 0, 0, 0, 0, 0, 0, 0, 0, 0, 1, 0, 0, 0, 0, 0, 0],
        rendered.keys
    );
}

#[test]
fn a_node_in_the_sections_knows_its_children() {
    let rendered = render(&tree_of(&[0, 1, 2, 3])).unwrap();
    let stored = open(&rendered);
    let root = stored.node(0).unwrap();
    assert_eq!(0, root.index());
    assert_eq!(&0, root.key());
    assert_eq!(vec![(2, 2), (1, 1)], root.children_vector());
    assert!(root.has_child_at(1));
    assert!(root.has_child_at(2));
    assert!(!root.has_child_at(0));
    assert!(!root.has_child_at(3));
    assert_eq!(Some(1), root.child_at(1));
    assert_eq!(Some(2), root.child_at(2));
    assert_eq!(None, root.child_at(5));
    let child = stored.node(1).unwrap();
    assert_eq!(&1, child.key());
    assert_eq!(Some(3), child.child_at(2));
    assert_eq!(&2, stored.node(3).unwrap().key());
    assert!(stored.node(3).unwrap().children_vector().is_empty());
    assert_eq!(Some(BkError::Truncated), stored.node(4).err());
}

#[test]
fn a_node_whose_children_cannot_be_read_has_none() {
    let config = FixedKeysConfig { dist: 1, child_index: 1, num_children: 1, key: 8 };
    let keys = [0u8; 16];
    // The slot of node 1 is missing.
    let stored =
        BkTreeFromFile::new(config, 2, &[0], &[1, 0], &[1, 0], &keys, HammingMetric::<u64>::default())
            .unwrap();
    let root = stored.node(0).unwrap();
    assert!(root.children_vector().is_empty());
    assert!(!root.has_child_at(0));
    assert_eq!(None, root.child_at(0));
    assert_eq!(Err(BkError::Truncated), stored.children_vector(0));
}
