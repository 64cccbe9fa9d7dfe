use bkchainsaw::array_storage::FixedKeysConfig;
use bkchainsaw::bkfile::{
    align, header_end, pad_header, section_bytes, write_file, write_prefix, write_sections,
    FileDescrHeader, FileSection, FileSections, Header, ALIGNMENT, HASH_HEADER_NAME,
    MAGIC_VERSION, PREFIX_SIZE,
};
use bkchainsaw::checksum::{checksum_hex, to_hex};
use bkchainsaw::error::BkError;
use sha2::{Digest, Sha256};

fn sample_file() -> Vec<u8> {
    write_file(b"descriptor", &[1, 2, 3], &[4; 64], &[], &[5; 70])
}

#[test]
fn align_goes_to_the_next_multiple() {
    assert_eq!(64, align(64, 0));
    assert_eq!(64, align(64, 1));
    assert_eq!(64, align(64, 63));
    assert_eq!(128, align(64, 64));
    assert_eq!(128, align(64, 65));
    assert_eq!(12, align(4, 9));
    assert_eq!(64, ALIGNMENT);
}

#[test]
fn sections_start_at_multiples_of_64() {
    let config = FixedKeysConfig { dist: 1, child_index: 2, num_children: 1, key: 8 };
    let sections = FileSections::layout(&config, 3, 64, 0, 70).unwrap();
    assert_eq!(
        sections.dist,
        Some(FileSection { item_size: Some(1), bytes: 3, offset: 0 })
    );
    assert_eq!(
        sections.child_index,
        Some(FileSection { item_size: Some(2), bytes: 64, offset: 64 })
    );
    assert_eq!(
        sections.num_children,
        Some(FileSection { item_size: Some(1), bytes: 0, offset: 192 })
    );
    assert_eq!(
        sections.key,
        Some(FileSection { item_size: Some(8), bytes: 70, offset: 256 })
    );
    for lens in [[0u64, 0, 0, 0], [1, 1, 1, 1], [63, 64, 65, 1000], [4096, 7, 123_456, 9]] {
        let sections = FileSections::layout(&config, lens[0], lens[1], lens[2], lens[3]).unwrap();
        let all = [sections.dist, sections.child_index, sections.num_children, sections.key];
        let mut end = 0;
        for (section, len) in all.iter().zip(lens) {
            let section = section.unwrap();
            assert_eq!(0, section.offset % 64);
            assert_eq!(len, section.bytes);
            assert!(section.offset >= end);
            assert!(section.offset < end + 65);
            end = section.offset + section.bytes;
        }
    }
}

#[test]
fn a_layout_that_cannot_be_counted_fails() {
    let config = FixedKeysConfig { dist: 1, child_index: 1, num_children: 1, key: 8 };
    assert_eq!(
        Err(BkError::OutOfStorage),
        FileSections::layout(&config, u64::MAX - 10, 0, 0, 0)
    );
    assert_eq!(
        Err(BkError::OutOfStorage),
        FileSections::layout(&config, 0, 0, 0, u64::MAX - 100)
    );
    assert!(FileSections::layout(&config, 0, 0, 0, u64::MAX - 192).is_ok());
}

#[test]
fn a_section_without_fixed_width_has_no_item_size() {
    assert_eq!(None, FileSection::new(0, 10, 64).item_size);
    assert_eq!(Some(3), FileSection::new(3, 10, 64).item_size);
    let section = FileSection::default();
    assert_eq!((None, 0, 0), (section.item_size, section.bytes, section.offset));
}

#[test]
fn the_header_ends_at_a_multiple_of_64() {
    for len in [0usize, 1, 41, 42, 43, 63, 64, 100, 1000] {
        let header = pad_header(vec![7; len], PREFIX_SIZE);
        assert_eq!(0, (PREFIX_SIZE + header.len()) % 64);
        assert!(header.len() < len + 64);
        assert!(header[..len].iter().all(|b| *b == 7));
        assert!(header[len..].iter().all(|b| *b == 0));
        assert_eq!(Some(PREFIX_SIZE + header.len()), header_end(PREFIX_SIZE, len));
    }
    assert_eq!(42, pad_header(vec![1; 42], PREFIX_SIZE).len());
    assert_eq!(None, header_end(usize::MAX, 1));
    assert_eq!(None, header_end(usize::MAX - 70, 64));
}

#[test]
fn the_prefix_is_two_lines() {
    let prefix = write_prefix(&[b'a'; 64]);
    assert_eq!(PREFIX_SIZE, prefix.len());
    let expected = format!("{}\n{}: {}\n", MAGIC_VERSION, HASH_HEADER_NAME, "a".repeat(64));
    assert_eq!(expected.as_bytes(), &prefix[..]);
}

#[test]
fn the_checksum_is_the_digest_in_hexadecimal() {
    assert_eq!(b"00ff0a9c".to_vec(), to_hex(&[0x00, 0xFF, 0x0A, 0x9C]));
    assert!(to_hex(&[]).is_empty());
    assert_eq!(
        b"b94d27b9934d3e08a52e52d7da7dabfac484efe37a5380ee9088f7ace2efcde9".to_vec(),
        checksum_hex(b"hello world")
    );
    assert_eq!(
        b"e3b0c44298fc1c149afbf4c8996fb92427ae41e4649b934ca495991b7852b855".to_vec(),
        checksum_hex(b"")
    );
}

#[test]
fn a_file_is_written_byte_by_byte() {
    let file = sample_file();
    // 86 bytes of prefix, 10 of descriptor, 32 of padding.
    assert_eq!(&file[86..96], b"descriptor");
    assert!(file[96..128].iter().all(|b| *b == 0));
    assert_eq!(&file[128..131], &[1, 2, 3]);
    assert!(file[131..192].iter().all(|b| *b == 0));
    assert_eq!(&file[192..256], &[4; 64]);
    // The second section ends at a multiple of 64; the next one still
    // starts at the multiple after it.
    assert!(file[256..320].iter().all(|b| *b == 0));
    // The third section is empty.
    assert!(file[320..384].iter().all(|b| *b == 0));
    assert_eq!(&file[384..454], &[5; 70]);
    assert_eq!(454, file.len());
    let digest = Sha256::digest(&file[86..]);
    let hex: String = digest.iter().map(|b| format!("{:02x}", b)).collect();
    let prefix = format!("BKTREE: 0000\nSHA256: {}\n", hex);
    assert_eq!(prefix.as_bytes(), &file[..86]);
    let mut sections = vec![9u8];
    write_sections(&mut sections, &[1, 2, 3], &[4; 64], &[], &[5; 70]);
    assert_eq!(9, sections[0]);
    assert_eq!(&file[128..], &sections[1..]);
}

#[test]
fn a_written_file_reads_back() {
    let file = sample_file();
    for verify in [false, true] {
        let header = Header::read(&file, verify).unwrap();
        assert_eq!(b"BKTREE: 0000".to_vec(), *header.version());
        assert_eq!(&file[21..85], &header.checksum()[..]);
        assert_eq!(PREFIX_SIZE, header.descr_start());
    }
    let end = header_end(PREFIX_SIZE, 10).unwrap();
    assert_eq!(128, end);
    let config = FixedKeysConfig { dist: 1, child_index: 2, num_children: 1, key: 8 };
    let sections = FileSections::layout(&config, 3, 64, 0, 70).unwrap();
    assert_eq!(Ok(&[1u8, 2, 3][..]), section_bytes(&file, end, &sections.dist.unwrap()));
    assert_eq!(Ok(&[4u8; 64][..]), section_bytes(&file, end, &sections.child_index.unwrap()));
    assert_eq!(Ok(&[][..]), section_bytes(&file, end, &sections.num_children.unwrap()));
    assert_eq!(Ok(&[5u8; 70][..]), section_bytes(&file, end, &sections.key.unwrap()));
}

#[test]
fn a_flipped_byte_fails_a_verified_read() {
    let file = sample_file();
    for at in [86usize, 95, 100, 128, 130, 200, 300, 384, 453] {
        let mut altered = file.clone();
        altered[at] ^= 0x01;
        let failure = Header::read(&altered, true).unwrap_err();
        assert_eq!(BkError::ChecksumMismatch, failure);
        assert!(failure.is_integrity_error());
        assert!(!failure.is_format_error());
        assert!(Header::read(&altered, false).is_ok());
    }
    let mut longer = file.clone();
    longer.push(0);
    assert_eq!(Err(BkError::ChecksumMismatch), Header::read(&longer, true).map(|_| ()));
    let mut stated = file.clone();
    stated[30] = if stated[30] == b'0' { b'1' } else { b'0' };
    assert_eq!(Err(BkError::ChecksumMismatch), Header::read(&stated, true).map(|_| ()));
}

#[test]
fn a_file_of_another_format_is_refused() {
    let file = sample_file();
    for verify in [false, true] {
        let read = |bytes: &[u8]| Header::read(bytes, verify).map(|_| ());
        assert_eq!(Err(BkError::UnknownFormat), read(b""));
        assert_eq!(Err(BkError::UnknownFormat), read(b"BKTREE: 0000"));
        assert_eq!(Err(BkError::UnknownFormat), read(b"BKTREE: 0001\nSHA256: 00\n"));
        assert_eq!(Err(BkError::UnknownFormat), read(b"BKTREE: 0000 \nSHA256: 00\n"));
        assert_eq!(Err(BkError::UnknownFormat), read(b"bktree: 0000\nSHA256: 00\n"));
        assert_eq!(Err(BkError::UnknownChecksum), read(b"BKTREE: 0000\n"));
        assert_eq!(Err(BkError::UnknownChecksum), read(b"BKTREE: 0000\nSHA512: 00\n"));
        assert_eq!(Err(BkError::UnknownChecksum), read(b"BKTREE: 0000\nSHA256 : 00\n"));
        assert_eq!(Err(BkError::UnknownChecksum), read(b"BKTREE: 0000\nSHA25"));
        assert_eq!(Err(BkError::TruncatedHeader), read(b"BKTREE: 0000\nSHA256:"));
        assert_eq!(Err(BkError::TruncatedHeader), read(&file[..85]));
    }
    assert!(BkError::UnknownFormat.is_format_error());
    assert!(BkError::UnknownChecksum.is_format_error());
    assert!(BkError::TruncatedHeader.is_format_error());
    assert!(!BkError::UnknownFormat.is_integrity_error());
    assert_eq!(
        "Unknown file format (expected \"BKTREE: 0000\")",
        BkError::UnknownFormat.message()
    );
    assert_eq!(
        "Unknown checksum format (expected \"SHA256\")",
        BkError::UnknownChecksum.message()
    );
    assert_eq!("Checksum failure", BkError::ChecksumMismatch.message());
}

#[test]
fn the_checksum_line_may_hold_spaces() {
    let body = b"body";
    let hex = checksum_hex(body);
    let mut file = b"BKTREE: 0000\nSHA256:   ".to_vec();
    file.extend_from_slice(&hex);
    file.push(b'\n');
    file.extend_from_slice(body);
    let header = Header::read(&file, true).unwrap();
    assert_eq!(hex, *header.checksum());
    assert_eq!(PREFIX_SIZE + 2, header.descr_start());
    let unverified = Header::read(b"BKTREE: 0000\nSHA256:nonsense\nrest", false).unwrap();
    assert_eq!(b"nonsense".to_vec(), *unverified.checksum());
    assert_eq!(29, unverified.descr_start());
    assert_eq!(
        Err(BkError::ChecksumMismatch),
        Header::read(b"BKTREE: 0000\nSHA256:nonsense\nrest", true).map(|_| ())
    );
}

#[test]
fn a_section_outside_the_file_is_refused() {
    let file = vec![3u8; 200];
    let section = |offset: u64, bytes: u64| FileSection { item_size: Some(1), bytes, offset };
    assert_eq!(Ok(&file[128..200]), section_bytes(&file, 128, &section(0, 72)));
    assert_eq!(Ok(&file[200..200]), section_bytes(&file, 128, &section(72, 0)));
    assert_eq!(Err(BkError::MalformedSection), section_bytes(&file, 128, &section(0, 73)));
    assert_eq!(Err(BkError::MalformedSection), section_bytes(&file, 128, &section(73, 0)));
    assert_eq!(Err(BkError::MalformedSection), section_bytes(&file, 201, &section(0, 0)));
    assert_eq!(
        Err(BkError::MalformedSection),
        section_bytes(&file, 128, &section(u64::MAX, 1))
    );
    assert_eq!(
        Err(BkError::MalformedSection),
        section_bytes(&file, 128, &section(1, u64::MAX))
    );
}

#[test]
fn a_descriptor_starts_empty() {
    let descr = FileDescrHeader::default();
    assert_eq!("", descr.created_on);
    assert_eq!(0, descr.node_count);
    assert_eq!("", descr.padding);
    assert_eq!(FileSections::default(), descr.section);
    assert_eq!(None, descr.section.key);
}
