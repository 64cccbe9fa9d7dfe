use bkchainsaw::array_storage::{
    byte_size_for_max_val, get_slice, read_entry, read_field, to_index, write_field, F64BNode8,
    FNode, FixedKeysConfig, InStorageNode, InStorageNodeMut,
};

#[test]
fn single_f64bnode8() {
    let nodes = &[8, 5, 0, 0, 1, 0, 0, 0];
    let keys = &[0, 1, 2, 3, 4, 5, 6, 7];
    let node = F64BNode8 {
        offset: 0,
        node_buffer: nodes.to_vec(),
        key_buffer: keys.to_vec(),
    };
    assert_eq!(Some(8), node.dist());
    assert_eq!(Some(5), node.child_count());
    assert_eq!(Some(0), node.key_offset());
    assert_eq!(Some(1), node.children_offset());
    assert_eq!(Some(&keys[0..8]), node.key_bytes());
}

#[test]
fn two_f64bnode8() {
    let nodes = &[8, 5, 1, 0, 1, 0, 0, 0, 4, 3, 0, 0, 0, 0, 0, 0];
    let keys = &[0, 1, 2, 3, 4, 5, 6, 7, 8, 9, 10, 11, 12, 13, 14, 15];
    {
        let node = F64BNode8 {
            offset: 0,
            node_buffer: nodes.to_vec(),
            key_buffer: keys.to_vec(),
        };
        assert_eq!(Some(8), node.dist());
        assert_eq!(Some(5), node.child_count());
        assert_eq!(Some(0), node.key_offset());
        assert_eq!(Some(1), node.children_offset());
        assert_eq!(Some(&keys[0..8]), node.key_bytes());
    }
    {
        let node = F64BNode8 {
            offset: 8,
            node_buffer: nodes.to_vec(),
            key_buffer: keys.to_vec(),
        };
        assert_eq!(Some(4), node.dist());
        assert_eq!(Some(3), node.child_count());
        assert_eq!(Some(8), node.key_offset());
        assert_eq!(None, node.children_offset());
        assert_eq!(Some(&keys[8..16]), node.key_bytes());
    }
}

#[test]
fn f64bnode8_reads_its_key_little_endian() {
    let node = F64BNode8 {
        offset: 8,
        node_buffer: vec![0; 16],
        key_buffer: vec![0, 0, 0, 0, 0, 0, 0, 0, 0x0D, 0x0C, 0x0B, 0x0A, 0, 0, 0, 0],
    };
    assert_eq!(Some(16), node.key_end());
    assert_eq!(Some(0x0A0B_0C0D), node.key());
    assert_eq!(Some(8), node.key_length());
    assert_eq!(8, node.encoding_size());
}

#[test]
fn f64bnode8_reads_four_bytes_of_children_offset() {
    let node = F64BNode8 {
        offset: 0,
        node_buffer: vec![0, 0, 0, 0, 0x04, 0x03, 0x02, 0x01],
        key_buffer: vec![],
    };
    assert_eq!(Some(0x0102_0304), node.children_offset());
}

#[test]
fn truncated_key_buffer_gives_no_key() {
    let node = F64BNode8 {
        offset: 8,
        node_buffer: vec![1, 0, 0, 0, 0, 0, 0, 0, 2, 0, 0, 0, 0, 0, 0, 0],
        key_buffer: vec![9; 15],
    };
    assert_eq!(Some(2), node.dist());
    assert_eq!(None, node.key_end());
    assert_eq!(None, node.key());
    assert_eq!(None, node.key_bytes());
}

#[test]
fn node_past_the_end_gives_no_fields() {
    let node = F64BNode8 {
        offset: 8,
        node_buffer: vec![1, 2, 0, 0, 3, 0, 0, 0],
        key_buffer: vec![0; 8],
    };
    assert_eq!(None, node.dist());
    assert_eq!(None, node.child_count());
    assert_eq!(None, node.children_offset());
    assert_eq!(None, node.key());
    let cut = F64BNode8 {
        offset: 0,
        node_buffer: vec![1, 2, 0, 0, 3, 0, 0],
        key_buffer: vec![0; 8],
    };
    assert_eq!(Some(1), cut.dist());
    assert_eq!(Some(2), cut.child_count());
    assert_eq!(None, cut.children_offset());
}

#[test]
fn f64bnode8_setters_write_what_getters_read() {
    let mut node = F64BNode8 {
        offset: 8,
        node_buffer: vec![0; 16],
        key_buffer: vec![0; 16],
    };
    node.set_key(0x0102_0304_0506_0708);
    node.set_dist(64);
    node.set_num_children(3);
    node.set_child_offset(0x0001_0000);
    assert_eq!(
        node.node_buffer,
        vec![0, 0, 0, 0, 0, 0, 0, 0, 64, 3, 0, 0, 0, 0, 1, 0]
    );
    assert_eq!(
        node.key_buffer,
        vec![0, 0, 0, 0, 0, 0, 0, 0, 8, 7, 6, 5, 4, 3, 2, 1]
    );
    assert_eq!(Some(64), node.dist());
    assert_eq!(Some(3), node.child_count());
    assert_eq!(Some(0x0001_0000), node.children_offset());
    assert_eq!(Some(0x0102_0304_0506_0708), node.key());
    node.set_child_offset(0);
    assert_eq!(None, node.children_offset());
}

#[test]
fn f64bnode8_moves_between_nodes() {
    let node = F64BNode8 {
        offset: 0,
        node_buffer: vec![0, 1, 0, 0, 16, 0, 0, 0, 7, 0, 0, 0, 0, 0, 0, 0, 9, 0, 0, 0, 0, 0, 0, 0],
        key_buffer: vec![0; 24],
    };
    let next = node.clone().next_node();
    assert_eq!(8, next.offset);
    assert_eq!(Some(7), next.dist());
    let back = next.prev_node();
    assert_eq!(0, back.offset);
    let child = node.first_child().unwrap();
    assert_eq!(16, child.offset);
    assert_eq!(Some(9), child.dist());
    assert!(child.first_child().is_none());
}

#[test]
fn widths_are_the_narrowest_that_hold_the_value() {
    assert_eq!(1, byte_size_for_max_val(0));
    assert_eq!(1, byte_size_for_max_val(64));
    assert_eq!(1, byte_size_for_max_val(255));
    assert_eq!(2, byte_size_for_max_val(256));
    assert_eq!(2, byte_size_for_max_val(511));
    assert_eq!(2, byte_size_for_max_val(65_535));
    assert_eq!(3, byte_size_for_max_val(65_536));
    assert_eq!(4, byte_size_for_max_val(1 << 24));
    assert_eq!(5, byte_size_for_max_val(1 << 32));
    assert_eq!(6, byte_size_for_max_val(1 << 40));
    assert_eq!(7, byte_size_for_max_val(1 << 48));
    assert_eq!(8, byte_size_for_max_val(1 << 56));
    assert_eq!(8, byte_size_for_max_val(u64::MAX));
}

#[test]
fn measured_widths() {
    let config = FixedKeysConfig::measure(70_000, 64, 300);
    assert_eq!(
        config,
        FixedKeysConfig {
            dist: 1,
            child_index: 3,
            num_children: 2,
            key: 8
        }
    );
    assert!(config.is_valid());
    assert!(!FixedKeysConfig { key: 4, ..config }.is_valid());
    assert!(!FixedKeysConfig { dist: 0, ..config }.is_valid());
    assert!(!FixedKeysConfig { child_index: 9, ..config }.is_valid());
}

#[test]
fn slices_that_do_not_fit_are_not_given() {
    let buf = [1u8, 2, 3, 4, 5];
    assert_eq!(Some(&buf[1..3]), get_slice(&buf, 1, 0, 2));
    assert_eq!(Some(&buf[3..5]), get_slice(&buf, 1, 2, 2));
    assert_eq!(Some(&buf[5..5]), get_slice(&buf, 5, 0, 0));
    assert_eq!(None, get_slice(&buf, 1, 2, 3));
    assert_eq!(None, get_slice(&buf, usize::MAX, 1, 0));
    assert_eq!(None, get_slice(&buf, 1, 1, usize::MAX));
}

#[test]
fn fields_of_any_width() {
    let mut buf = vec![0u8; 9];
    write_field(&mut buf, 3, 1, 0x0A0B0C);
    assert_eq!(buf, vec![0, 0, 0, 0x0C, 0x0B, 0x0A, 0, 0, 0]);
    write_field(&mut buf, 3, 2, 1);
    assert_eq!(Some(0), read_field(&buf, 3, 0));
    assert_eq!(Some(0x0A0B0C), read_field(&buf, 3, 1));
    assert_eq!(Some(1), read_field(&buf, 3, 2));
    assert_eq!(None, read_field(&buf, 3, 3));
    assert_eq!(None, read_field(&buf, 8, 1));
    assert_eq!(None, read_field(&buf, 3, usize::MAX));
    assert_eq!(Some(0x0A0B0C), read_entry(&buf, 3, 1));
    assert_eq!(None, read_entry(&buf, 0, 0));
    assert_eq!(None, read_entry(&buf, 9, 0));
    assert_eq!(Some(5), to_index(5));
}

#[test]
fn fnode_views_four_arrays() {
    let config = FixedKeysConfig { dist: 1, child_index: 2, num_children: 1, key: 8 };
    let dist = [0u8, 3, 5];
    let child_index = [1u8, 0, 0, 0, 0, 0];
    let num_children = [2u8, 0, 0];
    let keys: Vec<u8> = (0..24).collect();
    let node = |index: usize| FNode {
        config,
        index,
        dist: &dist,
        child_index: &child_index,
        num_children: &num_children,
        key: &keys,
    };
    assert_eq!(Some(0), node(0).dist());
    assert_eq!(Some(2), node(0).child_count());
    assert_eq!(Some(1), node(0).children_offset());
    assert_eq!(Some(0x0706_0504_0302_0100), node(0).key_u64());
    assert_eq!(Some(3), node(1).distance());
    assert_eq!(Some(0), node(1).child_count());
    assert_eq!(None, node(1).children_offset());
    assert_eq!(Some(8), node(1).key_offset());
    assert_eq!(Some(8), node(1).key_length());
    assert_eq!(Some(&keys[16..24]), node(2).key_bytes());
    assert_eq!(4, node(2).encoding_size());
    // Just past the last node nothing is there.
    assert_eq!(None, node(3).dist());
    assert_eq!(None, node(3).child_count());
    assert_eq!(None, node(3).children_offset());
    assert_eq!(None, node(3).key_u64());
    assert_eq!(None, node(3).key_bytes());
}

#[test]
fn fnode_with_a_truncated_key_array() {
    let config = FixedKeysConfig { dist: 1, child_index: 1, num_children: 1, key: 8 };
    let keys = [7u8; 12];
    let node = FNode {
        config,
        index: 1,
        dist: &[0, 1],
        child_index: &[0, 0],
        num_children: &[0, 0],
        key: &keys,
    };
    assert_eq!(Some(1), node.dist());
    assert_eq!(None, node.key_u64());
    assert_eq!(None, node.key_bytes());
    let other = FNode { config: FixedKeysConfig { key: 4, ..config }, ..node };
    assert_eq!(None, other.key_u64());
    assert_eq!(Some(&keys[4..8]), other.key_bytes());
}
