use bkchainsaw::error::BkError;
use bkchainsaw::extensible_mmap::{new_capacity, ExtensibleBuffer, ONE_GIB};

#[test]
fn capacity_doubles_up_to_a_gibibyte() {
    assert_eq!(1, new_capacity(0, 1));
    assert_eq!(10, new_capacity(0, 10));
    assert_eq!(2, new_capacity(1, 2));
    assert_eq!(200, new_capacity(100, 101));
    assert_eq!(300, new_capacity(100, 300));
    assert_eq!(2 * ONE_GIB, new_capacity(ONE_GIB, ONE_GIB + 1));
    assert_eq!(1usize << 30, ONE_GIB);
}

#[test]
fn capacity_grows_by_a_gibibyte_beyond_one() {
    if usize::BITS >= 64 {
        let big = ONE_GIB + 1;
        assert_eq!(big + ONE_GIB, new_capacity(big, big + 1));
        assert_eq!(5 * ONE_GIB, new_capacity(3 * ONE_GIB, 5 * ONE_GIB));
        assert_eq!(usize::MAX, new_capacity(usize::MAX - 5, usize::MAX - 1));
    }
}

#[test]
fn allocations_follow_each_other() {
    let mut buffer = ExtensibleBuffer::new();
    assert_eq!(0, buffer.next_offset());
    assert_eq!(0, buffer.capacity());
    assert_eq!(Ok(0), buffer.alloc_bytes(3));
    assert_eq!(3, buffer.capacity());
    assert_eq!(Ok(3), buffer.alloc_bytes(1));
    assert_eq!(6, buffer.capacity());
    assert_eq!(Ok(4), buffer.alloc_bytes(0));
    assert_eq!(Ok(4), buffer.alloc_bytes(8));
    assert_eq!(12, buffer.next_offset());
    assert_eq!(12, buffer.len());
    assert_eq!(12, buffer.capacity());
    assert_eq!(Ok(12), buffer.alloc_bytes(1));
    assert_eq!(24, buffer.capacity());
    assert_eq!(vec![0u8; 13], buffer.into_bytes());
}

#[test]
fn an_allocation_past_the_address_space_fails() {
    let mut buffer = ExtensibleBuffer::new();
    assert_eq!(Ok(0), buffer.alloc_bytes(2));
    assert_eq!(Err(BkError::OutOfStorage), buffer.alloc_bytes(usize::MAX));
    assert_eq!(2, buffer.next_offset());
    assert_eq!(2, buffer.capacity());
    assert!(!BkError::OutOfStorage.is_format_error());
    assert!(!BkError::OutOfStorage.is_integrity_error());
}

#[test]
fn growth_keeps_what_was_written() {
    let mut buffer = ExtensibleBuffer::new();
    buffer.alloc_bytes(4).unwrap();
    buffer.put_field(2, 0, 0x0102);
    buffer.put_field(2, 1, 0xFFFF);
    buffer.ensure_capacity(1000);
    assert_eq!(1000, buffer.capacity());
    buffer.ensure_capacity(10);
    assert_eq!(1000, buffer.capacity());
    buffer.alloc_bytes(2).unwrap();
    buffer.put_field(3, 1, 0x0A0B0C);
    assert_eq!(vec![2, 1, 0xFF, 0x0C, 0x0B, 0x0A], buffer.into_bytes());
}
