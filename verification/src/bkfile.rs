//! The file that holds a tree.
//!
//! A file starts with a textual prefix of two lines, the magic line
//! `BKTREE: 0000` and the checksum line `SHA256: ` with 64 hexadecimal
//! digits.  The header follows: the encoded descriptor and zero bytes up to
//! the next multiple of 64 bytes from the start of the file.  Then come the
//! four sections, Dist, Child, Num and Key in this order, each at an offset
//! from the end of the header that is a multiple of 64, with zero bytes
//! between them.  The checksum covers everything after the checksum line.
//!
//! How the descriptor is encoded is not decided here: this module takes the
//! encoded bytes, and tells where they start.

use crate::array_storage::FixedKeysConfig;
use crate::checksum::{checksum_hex, hex_lower, sha256};
use crate::error::BkError;
use vstd::prelude::*;
use vstd::slice::slice_subrange;
use vstd::string::StringSliceAdditionalSpecFns;

verus! {

/// The first line of a file, without its line feed.
pub const MAGIC_VERSION: &'static str = "BKTREE: 0000";

/// The name of the checksum, which starts the second line of a file.
pub const HASH_HEADER_NAME: &'static str = "SHA256";

/// The number of bytes of the two lines before the header.
pub const PREFIX_SIZE: usize = 86;

/// The header ends and every section starts at a multiple of this many
/// bytes.
pub const ALIGNMENT: u64 = 64;

/// One of the four arrays of a file.
#[derive(Debug, Copy, Clone, Default, PartialEq, Eq, Structural)]
pub struct FileSection {
    /// The number of bytes of one entry; none where entries vary in size.
    pub item_size: Option<u64>,
    /// The number of bytes of the section.
    pub bytes: u64,
    /// Where the section starts, counted from the end of the header.
    pub offset: u64,
}

/// The four arrays of a file.
#[derive(Debug, Copy, Clone, Default, PartialEq, Eq, Structural)]
pub struct FileSections {
    /// The distance of each node from its parent.
    pub dist: Option<FileSection>,
    /// The index of the first child of each node.
    pub child_index: Option<FileSection>,
    /// The number of children of each node.
    pub num_children: Option<FileSection>,
    /// The key of each node.
    pub key: Option<FileSection>,
}

/// What the header of a file says of the file.
#[derive(Debug, Clone, Default)]
pub struct FileDescrHeader {
    /// When the file was written, as text.
    pub created_on: String,
    /// The number of nodes of the tree.
    pub node_count: u64,
    /// Where the four arrays lie.
    pub section: FileSections,
    /// Filler that an encoder may set; it says nothing of the tree.
    pub padding: String,
}

/// The next multiple of `alignment` after `value`.
pub open spec fn spec_align(alignment: nat, value: nat) -> nat {
    (value + alignment - value % alignment) as nat
}

/// The next multiple of `alignment` after `value`: the smallest one that is
/// greater than `value`.
pub fn align(alignment: u64, value: u64) -> (aligned: u64)
    requires
        alignment > 0,
        value + alignment <= u64::MAX,
    ensures
        aligned == spec_align(alignment as nat, value as nat),
        aligned % alignment == 0,
        value < aligned <= value + alignment,
{
    let rem: u64 = value % alignment;
    assert((value + alignment - rem) % (alignment as int) == 0) by (nonlinear_arith)
        requires
            rem == value % alignment,
            alignment > 0,
    ;
    value + alignment - rem
}

/// The number of zero bytes after `len` bytes that start at `offset`, so
/// that what follows starts at a multiple of 64.
pub open spec fn spec_gap(offset: nat, len: nat) -> nat {
    ((64 - (offset + len) % 64) % 64) as nat
}

/// Where each section starts when the four of them, of the given lengths,
/// follow each other: the first at `0`, and each of the others at the next
/// multiple of 64 after the end of the one before.
pub open spec fn spec_layout(
    config: FixedKeysConfig,
    dist_len: nat,
    child_len: nat,
    num_len: nat,
    key_len: nat,
) -> FileSections {
    let at1 = spec_align(64, dist_len);
    let at2 = spec_align(64, at1 + child_len);
    let at3 = spec_align(64, at2 + num_len);
    FileSections {
        dist: Some(
            FileSection { item_size: spec_item_size(config.dist), bytes: dist_len as u64, offset: 0 },
        ),
        child_index: Some(
            FileSection {
                item_size: spec_item_size(config.child_index),
                bytes: child_len as u64,
                offset: at1 as u64,
            },
        ),
        num_children: Some(
            FileSection {
                item_size: spec_item_size(config.num_children),
                bytes: num_len as u64,
                offset: at2 as u64,
            },
        ),
        key: Some(
            FileSection { item_size: spec_item_size(config.key), bytes: key_len as u64, offset: at3 as u64 },
        ),
    }
}

/// The item size that a descriptor holds for entries of `width` bytes: none
/// for a width of zero, which stands for entries that vary in size.
pub open spec fn spec_item_size(width: usize) -> Option<u64> {
    if width > 0 {
        Some(width as u64)
    } else {
        None
    }
}

/// The end of the last section, counted from the end of the header.
pub open spec fn spec_layout_end(dist_len: nat, child_len: nat, num_len: nat, key_len: nat) -> nat {
    spec_align(64, spec_align(64, spec_align(64, dist_len) + child_len) + num_len) + key_len
}

impl FileSection {
    /// The section of `bytes` bytes at `offset`, with entries of `width`
    /// bytes.
    pub fn new(width: usize, bytes: u64, offset: u64) -> (section: Self)
        ensures
            section == (FileSection { item_size: spec_item_size(width), bytes, offset }),
    {
        FileSection {
            item_size: if width > 0 {
                Some(width as u64)
            } else {
                None
            },
            bytes,
            offset,
        }
    }
}

impl FileSections {
    /// Lays out the four sections of the given lengths one after the other.
    /// Every section starts at a multiple of 64 bytes.  Fails where the
    /// file would be longer than 64 bits can count.
    pub fn layout(
        config: &FixedKeysConfig,
        dist_len: u64,
        child_len: u64,
        num_len: u64,
        key_len: u64,
    ) -> (r: Result<FileSections, BkError>)
        ensures
            r is Ok <==> spec_layout_end(
                dist_len as nat,
                child_len as nat,
                num_len as nat,
                key_len as nat,
            ) <= u64::MAX,
            r is Err ==> r->Err_0 == BkError::OutOfStorage,
            r is Ok ==> r->Ok_0 == spec_layout(
                *config,
                dist_len as nat,
                child_len as nat,
                num_len as nat,
                key_len as nat,
            ),
            r is Ok ==> r->Ok_0.dist->Some_0.offset % 64 == 0 && r->Ok_0.child_index->Some_0.offset
                % 64 == 0 && r->Ok_0.num_children->Some_0.offset % 64 == 0
                && r->Ok_0.key->Some_0.offset % 64 == 0,
    {
        let at1 = match next_start(0, dist_len) {
            Some(at) => at,
            None => { return Err(BkError::OutOfStorage); },
        };
        let at2 = match next_start(at1, child_len) {
            Some(at) => at,
            None => { return Err(BkError::OutOfStorage); },
        };
        let at3 = match next_start(at2, num_len) {
            Some(at) => at,
            None => { return Err(BkError::OutOfStorage); },
        };
        if key_len > u64::MAX - at3 {
            return Err(BkError::OutOfStorage);
        }
        Ok(
            FileSections {
                dist: Some(FileSection::new(config.dist, dist_len, 0)),
                child_index: Some(FileSection::new(config.child_index, child_len, at1)),
                num_children: Some(FileSection::new(config.num_children, num_len, at2)),
                key: Some(FileSection::new(config.key, key_len, at3)),
            },
        )
    }
}

/// Where the section after one of `len` bytes at `offset` starts, if 64
/// bits can count that far.
fn next_start(offset: u64, len: u64) -> (r: Option<u64>)
    ensures
        r is Some <==> spec_align(64, (offset + len) as nat) <= u64::MAX,
        r is Some ==> r->Some_0 == spec_align(64, (offset + len) as nat) && r->Some_0 % 64 == 0,
{
    match offset.checked_add(len) {
        None => None,
        Some(end) => if end > u64::MAX - 64 {
            None
        } else {
            Some(align(64, end))
        },
    }
}

/// The bytes of the first line of a file: `BKTREE: 0000` and a line feed.
pub open spec fn magic_line() -> Seq<u8> {
    seq![0x42u8, 0x4B, 0x54, 0x52, 0x45, 0x45, 0x3A, 0x20, 0x30, 0x30, 0x30, 0x30, 0x0A]
}

/// The bytes that start the second line of a file: `SHA256:`.
pub open spec fn hash_tag() -> Seq<u8> {
    seq![0x53u8, 0x48, 0x41, 0x32, 0x35, 0x36, 0x3A]
}

/// The two constants spell the magic line and the tag of the checksum.
pub proof fn lemma_prefix_text()
    ensures
        MAGIC_VERSION.spec_bytes() + seq![0x0Au8] == magic_line(),
        HASH_HEADER_NAME.spec_bytes() + seq![0x3Au8] == hash_tag(),
{
    reveal_strlit("BKTREE: 0000");
    reveal_strlit("SHA256");
    vstd::string::is_ascii_spec_bytes(MAGIC_VERSION);
    vstd::string::is_ascii_spec_bytes(HASH_HEADER_NAME);
    assert(MAGIC_VERSION.spec_bytes() + seq![0x0Au8] =~= magic_line());
    assert(HASH_HEADER_NAME.spec_bytes() + seq![0x3Au8] =~= hash_tag());
}

/// `n` zero bytes.
pub open spec fn zeros(n: nat) -> Seq<u8> {
    Seq::new(n, |i: int| 0u8)
}

/// The two lines before the header of a file whose checksum line holds
/// `checksum`.
pub open spec fn prefix(checksum: Seq<u8>) -> Seq<u8> {
    magic_line() + hash_tag() + seq![0x20u8] + checksum + seq![0x0Au8]
}

/// The header of a file: the encoded descriptor, which starts at `offset`,
/// and zero bytes up to the next multiple of 64.
pub open spec fn padded_header(descr: Seq<u8>, offset: nat) -> Seq<u8> {
    descr + zeros(spec_gap(offset, descr.len()))
}

/// What follows the header of a file: the four sections, each but the first
/// after zero bytes up to the next multiple of 64.
pub open spec fn spec_sections(dist: Seq<u8>, child: Seq<u8>, num: Seq<u8>, key: Seq<u8>) -> Seq<
    u8,
> {
    let at1 = spec_align(64, dist.len());
    let at2 = spec_align(64, at1 + child.len());
    let at3 = spec_align(64, at2 + num.len());
    dist + zeros((at1 - dist.len()) as nat) + child + zeros((at2 - at1 - child.len()) as nat) + num
        + zeros((at3 - at2 - num.len()) as nat) + key
}

/// What the checksum of a file covers: the header and the sections.
pub open spec fn spec_body(
    descr: Seq<u8>,
    dist: Seq<u8>,
    child: Seq<u8>,
    num: Seq<u8>,
    key: Seq<u8>,
) -> Seq<u8> {
    padded_header(descr, PREFIX_SIZE as nat) + spec_sections(dist, child, num, key)
}

/// The bytes of a whole file.
pub open spec fn spec_file(
    descr: Seq<u8>,
    dist: Seq<u8>,
    child: Seq<u8>,
    num: Seq<u8>,
    key: Seq<u8>,
) -> Seq<u8> {
    let body = spec_body(descr, dist, child, num, key);
    prefix(hex_lower(sha256(body))) + body
}

/// Appends `bytes` to `out`.
fn append_bytes(out: &mut Vec<u8>, bytes: &[u8])
    ensures
        final(out)@ == old(out)@ + bytes@,
{
    out.extend_from_slice(bytes);
    assert(out@ =~= old(out)@ + bytes@);
}

/// Appends `n` zero bytes to `out`.
fn append_zeros(out: &mut Vec<u8>, n: usize)
    ensures
        final(out)@ == old(out)@ + zeros(n as nat),
{
    let mut i: usize = 0;
    assert(out@ =~= old(out)@ + zeros(0));
    while i < n
        invariant
            i <= n,
            out@ == old(out)@ + zeros(i as nat),
        decreases n - i,
    {
        out.push(0);
        i += 1;
        assert(out@ =~= old(out)@ + zeros(i as nat));
    }
}

/// The first line of a file.
fn magic_line_bytes() -> (line: Vec<u8>)
    ensures
        line@ == magic_line(),
{
    proof {
        lemma_prefix_text();
    }
    let mut line: Vec<u8> = Vec::new();
    append_bytes(&mut line, MAGIC_VERSION.as_bytes());
    line.push(0x0A);
    assert(line@ =~= MAGIC_VERSION.spec_bytes() + seq![0x0Au8]);
    line
}

/// The start of the second line of a file.
fn hash_tag_bytes() -> (tag: Vec<u8>)
    ensures
        tag@ == hash_tag(),
{
    proof {
        lemma_prefix_text();
    }
    let mut tag: Vec<u8> = Vec::new();
    append_bytes(&mut tag, HASH_HEADER_NAME.as_bytes());
    tag.push(0x3A);
    assert(tag@ =~= HASH_HEADER_NAME.spec_bytes() + seq![0x3Au8]);
    tag
}

/// Makes the header of a file of an encoded descriptor that starts at
/// `offset`: appends zero bytes, so that what follows the header starts at
/// a multiple of 64.
pub fn pad_header(descr: Vec<u8>, offset: usize) -> (header: Vec<u8>)
    ensures
        header@ == padded_header(descr@, offset as nat),
        (offset + header@.len()) % 64 == 0,
        header@.len() < descr@.len() + 64,
{
    let mut header = descr;
    let used = (offset % 64 + header.len() % 64) % 64;
    let gap = (64 - used) % 64;
    append_zeros(&mut header, gap);
    header
}

/// Writes the two lines before the header, with `checksum` in the second.
pub fn write_prefix(checksum: &[u8]) -> (out: Vec<u8>)
    ensures
        out@ == prefix(checksum@),
        out@.len() == 22 + checksum@.len(),
{
    let mut out = magic_line_bytes();
    let tag = hash_tag_bytes();
    append_bytes(&mut out, tag.as_slice());
    out.push(0x20);
    append_bytes(&mut out, checksum);
    out.push(0x0A);
    out
}

/// Writes what follows the header of a file: the four sections, each but
/// the first after zero bytes up to the next multiple of 64.
pub fn write_sections(out: &mut Vec<u8>, dist: &[u8], child: &[u8], num: &[u8], key: &[u8])
    ensures
        final(out)@ == old(out)@ + spec_sections(dist@, child@, num@, key@),
{
    let ghost at1 = spec_align(64, dist@.len());
    let ghost at2 = spec_align(64, at1 + child@.len());
    let ghost at3 = spec_align(64, at2 + num@.len());
    append_bytes(out, dist);
    let gap1 = 64 - dist.len() % 64;
    append_zeros(out, gap1);
    append_bytes(out, child);
    let gap2 = 64 - child.len() % 64;
    assert(gap2 == at2 - at1 - child@.len());
    append_zeros(out, gap2);
    append_bytes(out, num);
    let gap3 = 64 - num.len() % 64;
    assert(gap3 == at3 - at2 - num@.len());
    append_zeros(out, gap3);
    append_bytes(out, key);
    assert(out@ =~= old(out)@ + spec_sections(dist@, child@, num@, key@));
}

/// Writes a whole file: the prefix, the header made of the encoded
/// descriptor `descr`, and the four sections.  The checksum line holds the
/// digest of everything after it.
pub fn write_file(descr: &[u8], dist: &[u8], child: &[u8], num: &[u8], key: &[u8]) -> (file: Vec<
    u8,
>)
    ensures
        file@ == spec_file(descr@, dist@, child@, num@, key@),
        reads_back(file@, descr@, dist@, child@, num@, key@),
{
    let mut body: Vec<u8> = Vec::new();
    append_bytes(&mut body, descr);
    let mut body = pad_header(body, PREFIX_SIZE);
    write_sections(&mut body, dist, child, num, key);
    let checksum = checksum_hex(body.as_slice());
    let mut file = write_prefix(checksum.as_slice());
    append_bytes(&mut file, body.as_slice());
    proof {
        assert(hex_lower(sha256(body@)).len() == 2 * sha256(body@).len());
        lemma_file_reads_back(descr@, dist@, child@, num@, key@);
    }
    file
}

/// Where the line that `from` lies in ends: the place of the first line
/// feed at or after `from`, or the length of `bytes` if there is none.
pub open spec fn line_end(bytes: Seq<u8>, from: int) -> int
    decreases bytes.len() - from,
{
    if from < 0 || from >= bytes.len() {
        bytes.len() as int
    } else if bytes[from] == 0x0A {
        from
    } else {
        line_end(bytes, from + 1)
    }
}

/// The place of the first byte at or after `from` and before `to` that is
/// not a space, or `to` if there is none.
pub open spec fn after_spaces(bytes: Seq<u8>, from: int, to: int) -> int
    decreases to - from,
{
    if from < 0 || from >= to || to > bytes.len() {
        to
    } else if bytes[from] != 0x20 {
        from
    } else {
        after_spaces(bytes, from + 1, to)
    }
}

/// Whether `bytes` holds `expected` at `at`.
pub open spec fn holds_at(bytes: Seq<u8>, at: int, expected: Seq<u8>) -> bool {
    at + expected.len() <= bytes.len() && bytes.subrange(at, at + expected.len()) == expected
}

/// What the two lines before the header say: the checksum, and where the
/// header starts.  The first line has to be the magic line, and the second
/// has to start with the tag of the checksum and to end with a line feed;
/// the checksum is what stands between the two, without the spaces before
/// it.
pub open spec fn parse_prefix(bytes: Seq<u8>) -> Result<(Seq<u8>, int), BkError> {
    if !holds_at(bytes, 0, magic_line()) {
        Err(BkError::UnknownFormat)
    } else if !holds_at(bytes, 13, hash_tag()) {
        Err(BkError::UnknownChecksum)
    } else {
        let end = line_end(bytes, 20);
        if end >= bytes.len() {
            Err(BkError::TruncatedHeader)
        } else {
            Ok((bytes.subrange(after_spaces(bytes, 20, end), end), end + 1))
        }
    }
}

/// What reading a file gives: what its prefix says, unless the checksum is
/// to be verified and is not the digest of what follows the prefix.
pub open spec fn spec_read(bytes: Seq<u8>, verify_checksum: bool) -> Result<(Seq<u8>, int), BkError> {
    match parse_prefix(bytes) {
        Err(e) => Err(e),
        Ok((checksum, start)) => if verify_checksum && checksum != hex_lower(
            sha256(bytes.subrange(start, bytes.len() as int)),
        ) {
            Err(BkError::ChecksumMismatch)
        } else {
            Ok((checksum, start))
        },
    }
}

/// Whether `bytes` holds `expected` at `at`.
fn check_at(bytes: &[u8], at: usize, expected: &[u8]) -> (held: bool)
    ensures
        held == holds_at(bytes@, at as int, expected@),
{
    let len: usize = bytes.len();
    let n: usize = expected.len();
    if at > len || n > len - at {
        return false;
    }
    let mut i: usize = 0;
    while i < n
        invariant
            at + n <= len,
            len == bytes@.len(),
            n == expected@.len(),
            i <= n,
            forall|j: int| 0 <= j < i ==> bytes@[at + j] == expected@[j],
        decreases n - i,
    {
        if bytes[at + i] != expected[i] {
            assert(bytes@.subrange(at as int, at + n)[i as int] != expected@[i as int]);
            return false;
        }
        i += 1;
    }
    assert(bytes@.subrange(at as int, at + n) =~= expected@);
    true
}

/// Whether two runs of bytes are the same.
fn same_bytes(a: &[u8], b: &[u8]) -> (same: bool)
    ensures
        same == (a@ == b@),
{
    if a.len() != b.len() {
        return false;
    }
    let held = check_at(a, 0, b);
    assert(a@.subrange(0, a@.len() as int) =~= a@);
    held
}

/// Finds the end of the line that `from` lies in.
fn find_line_end(bytes: &[u8], from: usize) -> (end: usize)
    requires
        from <= bytes@.len(),
    ensures
        end == line_end(bytes@, from as int),
        from <= end <= bytes@.len(),
{
    let mut i: usize = from;
    while i < bytes.len() && bytes[i] != 0x0A
        invariant
            from <= i <= bytes@.len(),
            line_end(bytes@, from as int) == line_end(bytes@, i as int),
        decreases bytes@.len() - i,
    {
        i += 1;
    }
    i
}

/// Skips the spaces at and after `from`, up to `to`.
fn skip_spaces(bytes: &[u8], from: usize, to: usize) -> (at: usize)
    requires
        from <= to <= bytes@.len(),
    ensures
        at == after_spaces(bytes@, from as int, to as int),
        from <= at <= to,
{
    let mut i: usize = from;
    while i < to && bytes[i] == 0x20
        invariant
            from <= i <= to,
            to <= bytes@.len(),
            after_spaces(bytes@, from as int, to as int) == after_spaces(bytes@, i as int, to as int),
        decreases to - i,
    {
        i += 1;
    }
    i
}

/// What was read of the prefix of a file.
#[derive(Debug, Default)]
pub struct Header {
    version: Vec<u8>,
    checksum: Vec<u8>,
    descr_start: usize,
}

impl Header {
    /// The first line of the file, without its line feed.
    pub closed spec fn spec_version(&self) -> Seq<u8> {
        self.version@
    }

    /// The checksum that the file states.
    pub closed spec fn spec_checksum(&self) -> Seq<u8> {
        self.checksum@
    }

    /// Where the encoded descriptor starts in the file.
    pub closed spec fn spec_descr_start(&self) -> usize {
        self.descr_start
    }

    /// Reads the prefix of a file, whose bytes are `bytes`.
    ///
    /// Fails unless the first line is the magic line, and unless the second
    /// line names SHA-256, and if the file ends before the second line
    /// does.  Where `verify_checksum` is set, fails as well unless the
    /// checksum that the second line states is the digest, in lower-case
    /// hexadecimal, of everything after that line.
    pub fn read(bytes: &[u8], verify_checksum: bool) -> (r: Result<Header, BkError>)
        ensures
            match spec_read(bytes@, verify_checksum) {
                Ok((checksum, start)) => r is Ok && r->Ok_0.spec_checksum() == checksum
                    && r->Ok_0.spec_descr_start() == start && r->Ok_0.spec_version()
                    == magic_line().drop_last(),
                Err(e) => r == Err::<Header, BkError>(e),
            },
    {
        let magic = magic_line_bytes();
        if !check_at(bytes, 0, magic.as_slice()) {
            return Err(BkError::UnknownFormat);
        }
        let tag = hash_tag_bytes();
        if !check_at(bytes, 13, tag.as_slice()) {
            return Err(BkError::UnknownChecksum);
        }
        let end = find_line_end(bytes, 20);
        if end >= bytes.len() {
            return Err(BkError::TruncatedHeader);
        }
        let from = skip_spaces(bytes, 20, end);
        let stated = slice_subrange(bytes, from, end);
        if verify_checksum {
            let found = checksum_hex(slice_subrange(bytes, end + 1, bytes.len()));
            if !same_bytes(found.as_slice(), stated) {
                return Err(BkError::ChecksumMismatch);
            }
        }
        let mut version = magic;
        version.pop();
        assert(version@ =~= magic_line().drop_last());
        Ok(Header { version, checksum: vstd::slice::slice_to_vec(stated), descr_start: end + 1 })
    }

    /// The first line of the file, without its line feed.
    pub fn version(&self) -> (version: &Vec<u8>)
        ensures
            version@ == self.spec_version(),
    {
        &self.version
    }

    /// The checksum that the file states.
    pub fn checksum(&self) -> (checksum: &Vec<u8>)
        ensures
            checksum@ == self.spec_checksum(),
    {
        &self.checksum
    }

    /// Where the encoded descriptor starts in the file.
    pub fn descr_start(&self) -> (start: usize)
        ensures
            start == self.spec_descr_start(),
    {
        self.descr_start
    }
}

/// Where the header ends, if the descriptor starts at `descr_start` and
/// takes `descr_len` bytes: at the next multiple of 64 that is not before
/// the end of the descriptor.
pub open spec fn spec_header_end(descr_start: nat, descr_len: nat) -> nat {
    descr_start + descr_len + spec_gap(descr_start, descr_len)
}

/// Where the header ends, if the machine can address that far.
pub fn header_end(descr_start: usize, descr_len: usize) -> (r: Option<usize>)
    ensures
        r is Some <==> spec_header_end(descr_start as nat, descr_len as nat) <= usize::MAX,
        r is Some ==> r->Some_0 == spec_header_end(descr_start as nat, descr_len as nat)
            && r->Some_0 % 64 == 0,
{
    match descr_start.checked_add(descr_len) {
        None => None,
        Some(end) => {
            let gap = (64 - end % 64) % 64;
            end.checked_add(gap)
        },
    }
}

/// The bytes of `section` in a file whose header ends at `header_end`.
/// Fails where the section does not lie within the file.
pub fn section_bytes<'a>(file: &'a [u8], header_end: usize, section: &FileSection) -> (r: Result<
    &'a [u8],
    BkError,
>)
    ensures
        r is Ok <==> header_end + section.offset + section.bytes <= file@.len(),
        r is Err ==> r->Err_0 == BkError::MalformedSection,
        r is Ok ==> r->Ok_0@ == file@.subrange(
            header_end + section.offset,
            header_end + section.offset + section.bytes,
        ),
{
    let len: usize = file.len();
    if header_end > len {
        return Err(BkError::MalformedSection);
    }
    let room: usize = len - header_end;
    if section.offset > room as u64 {
        return Err(BkError::MalformedSection);
    }
    let start: usize = header_end + section.offset as usize;
    if section.bytes > (len - start) as u64 {
        return Err(BkError::MalformedSection);
    }
    let end: usize = start + section.bytes as usize;
    Ok(slice_subrange(file, start, end))
}

/// A line ends at the first line feed.
proof fn lemma_line_end(bytes: Seq<u8>, from: int, end: int)
    requires
        0 <= from <= end < bytes.len(),
        bytes[end] == 0x0A,
        forall|i: int| from <= i < end ==> bytes[i] != 0x0A,
    ensures
        line_end(bytes, from) == end,
    decreases end - from,
{
    if from < end {
        lemma_line_end(bytes, from + 1, end);
    }
}

/// No digit of a number in hexadecimal is a space or a line feed.
proof fn lemma_hex_digits(data: Seq<u8>)
    ensures
        hex_lower(data).len() == 2 * data.len(),
        forall|i: int|
            0 <= i < hex_lower(data).len() ==> #[trigger] hex_lower(data)[i] != 0x0A
                && hex_lower(data)[i] != 0x20,
{
    assert forall|i: int| 0 <= i < hex_lower(data).len() implies #[trigger] hex_lower(data)[i]
        != 0x0A && hex_lower(data)[i] != 0x20 by {
        let b = data[i / 2];
        assert(b / 16 < 16 && b % 16 < 16);
    }
}

/// Different bytes are spelled differently in hexadecimal.
pub proof fn lemma_hex_injective(a: Seq<u8>, b: Seq<u8>)
    requires
        hex_lower(a) == hex_lower(b),
    ensures
        a == b,
{
    assert(hex_lower(a).len() == 2 * a.len());
    assert(hex_lower(b).len() == 2 * b.len());
    assert forall|i: int| 0 <= i < a.len() implies a[i] == b[i] by {
        let hi_a = hex_lower(a)[2 * i];
        let lo_a = hex_lower(a)[2 * i + 1];
        assert(hi_a == hex_lower(b)[2 * i]);
        assert(lo_a == hex_lower(b)[2 * i + 1]);
        assert((2 * i) / 2 == i && (2 * i + 1) / 2 == i);
        assert(hi_a == crate::checksum::hex_digit(a[i] / 16));
        assert(lo_a == crate::checksum::hex_digit(a[i] % 16));
        assert(a[i] / 16 < 16 && a[i] % 16 < 16 && b[i] / 16 < 16 && b[i] % 16 < 16);
        assert(a[i] / 16 == b[i] / 16);
        assert(a[i] % 16 == b[i] % 16);
    }
    assert(a =~= b);
}

/// The prefix that was written for a digest reads as that digest, whatever
/// follows it.
pub proof fn lemma_prefix_parses(digest: Seq<u8>, rest: Seq<u8>)
    ensures
        parse_prefix(prefix(hex_lower(digest)) + rest) == Ok::<(Seq<u8>, int), BkError>(
            (hex_lower(digest), (22 + 2 * digest.len()) as int),
        ),
        (prefix(hex_lower(digest)) + rest).subrange(
            (22 + 2 * digest.len()) as int,
            (prefix(hex_lower(digest)) + rest).len() as int,
        ) == rest,
        prefix(hex_lower(digest)).len() == 22 + 2 * digest.len(),
{
    let sum = hex_lower(digest);
    let pre = prefix(sum);
    let bytes = pre + rest;
    lemma_hex_digits(digest);
    let n = sum.len() as int;
    assert(pre.len() == 22 + n);
    assert(bytes.subrange(0, 13) =~= magic_line());
    assert(bytes.subrange(13, 20) =~= hash_tag());
    assert(bytes[20] == 0x20);
    assert(bytes[21 + n] == 0x0A);
    assert forall|i: int| 21 <= i < 21 + n implies bytes[i] == sum[i - 21] by {}
    assert forall|i: int| 20 <= i < 21 + n implies bytes[i] != 0x0A by {
        if i > 20 {
            assert(bytes[i] == sum[i - 21]);
        }
    }
    lemma_line_end(bytes, 20, 21 + n);
    let end = 21 + n;
    assert(after_spaces(bytes, 20, end) == 21) by {
        if n > 0 {
            assert(bytes[21] == sum[0]);
            assert(after_spaces(bytes, 21, end) == 21);
        } else {
            assert(after_spaces(bytes, 21, end) == 21);
        }
    }
    assert(bytes.subrange(21, end) =~= sum);
    assert(bytes.subrange(22 + n, bytes.len() as int) =~= rest);
}

/// Whether the parts of a file stand where they belong: the encoded
/// descriptor right after the prefix; the end of the header at a multiple
/// of 64; and each of the four sections where the layout of sections of
/// these lengths puts it.
pub open spec fn located(
    file: Seq<u8>,
    descr: Seq<u8>,
    dist: Seq<u8>,
    child: Seq<u8>,
    num: Seq<u8>,
    key: Seq<u8>,
) -> bool {
    let end = spec_header_end(PREFIX_SIZE as nat, descr.len()) as int;
    let at1 = spec_align(64, dist.len()) as int;
    let at2 = spec_align(64, (at1 + child.len()) as nat) as int;
    let at3 = spec_align(64, (at2 + num.len()) as nat) as int;
    &&& file.subrange(PREFIX_SIZE as int, PREFIX_SIZE + descr.len()) == descr
    &&& end % 64 == 0
    &&& file.len() == end + at3 + key.len()
    &&& file.subrange(end, end + dist.len()) == dist
    &&& file.subrange(end + at1, end + at1 + child.len()) == child
    &&& file.subrange(end + at2, end + at2 + num.len()) == num
    &&& file.subrange(end + at3, end + at3 + key.len()) == key
}

/// Whether `file` reads back as what was written into it: its prefix states
/// the digest of what follows, so that a verified read succeeds and says
/// that the descriptor starts right after the prefix, and the parts of the
/// file stand where they belong.
pub open spec fn reads_back(
    file: Seq<u8>,
    descr: Seq<u8>,
    dist: Seq<u8>,
    child: Seq<u8>,
    num: Seq<u8>,
    key: Seq<u8>,
) -> bool {
    &&& spec_read(file, true) == Ok::<(Seq<u8>, int), BkError>(
        (hex_lower(sha256(file.subrange(PREFIX_SIZE as int, file.len() as int))), PREFIX_SIZE as int),
    )
    &&& located(file, descr, dist, child, num, key)
}

/// A file that was written reads back.
proof fn lemma_file_reads_back(
    descr: Seq<u8>,
    dist: Seq<u8>,
    child: Seq<u8>,
    num: Seq<u8>,
    key: Seq<u8>,
)
    requires
        sha256(spec_body(descr, dist, child, num, key)).len() == 32,
    ensures
        reads_back(spec_file(descr, dist, child, num, key), descr, dist, child, num, key),
{
    let file = spec_file(descr, dist, child, num, key);
    let body = spec_body(descr, dist, child, num, key);
    let digest = sha256(body);
    lemma_prefix_parses(digest, body);
    let header = padded_header(descr, PREFIX_SIZE as nat);
    let sections = spec_sections(dist, child, num, key);
    let end = spec_header_end(PREFIX_SIZE as nat, descr.len()) as int;
    let at1 = spec_align(64, dist.len()) as int;
    let at2 = spec_align(64, (at1 + child.len()) as nat) as int;
    let at3 = spec_align(64, (at2 + num.len()) as nat) as int;
    assert(header.len() == descr.len() + spec_gap(PREFIX_SIZE as nat, descr.len()));
    assert(end == PREFIX_SIZE + header.len());
    assert(sections.len() == at3 + key.len());
    assert(file.len() == end + at3 + key.len());
    assert(file.subrange(PREFIX_SIZE as int, file.len() as int) == body);
    assert(file.subrange(PREFIX_SIZE as int, PREFIX_SIZE + descr.len()) =~= descr);
    assert forall|i: int| 0 <= i < sections.len() implies file[end + i] == sections[i] by {}
    assert(file.subrange(end, end + dist.len()) =~= dist);
    assert(file.subrange(end + at1, end + at1 + child.len()) =~= child);
    assert(file.subrange(end + at2, end + at2 + num.len()) =~= num);
    assert(file.subrange(end + at3, end + at3 + key.len()) =~= key);
}

/// A file whose contents were altered after it was written fails a
/// verified read with a checksum mismatch, unless what is now in it has the
/// same digest as what was written.
pub proof fn lemma_altered_file_fails(written: Seq<u8>, altered: Seq<u8>)
    ensures
        sha256(altered) != sha256(written) <==> spec_read(
            prefix(hex_lower(sha256(written))) + altered,
            true,
        ) == Err::<(Seq<u8>, int), BkError>(BkError::ChecksumMismatch),
{
    lemma_prefix_parses(sha256(written), altered);
    if hex_lower(sha256(altered)) == hex_lower(sha256(written)) {
        lemma_hex_injective(sha256(altered), sha256(written));
    }
}

} // verus!
