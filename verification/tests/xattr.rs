use erofs_rs::error::Error;
use erofs_rs::scan::{XattrInode, XattrScan};
use erofs_rs::xattr::{
    align4, bloom_filter_admits, bloom_filter_check, format_value, short_prefix, InodeHeader,
    XattrBodyHeader, XattrEntry, XattrIter,
};

/// The hash of `selinux` with the seed 3 chooses bit 14.
const SELINUX: u32 = 1 << 14;

fn entry(index: u8, name: &[u8], value: &[u8]) -> Vec<u8> {
    let mut b = vec![name.len() as u8, index];
    b.extend_from_slice(&(value.len() as u16).to_le_bytes());
    b.extend_from_slice(name);
    b.extend_from_slice(value);
    while b.len() % 4 != 0 {
        b.push(0xaa);
    }
    b
}

fn body(filter: u32, shared: u8, entries: &[Vec<u8>]) -> Vec<u8> {
    let mut b = filter.to_le_bytes().to_vec();
    b.push(shared);
    b.extend_from_slice(&[0; 7]);
    for _ in 0..shared {
        b.extend_from_slice(&[0xbb; 4]);
    }
    for e in entries {
        b.extend_from_slice(e);
    }
    b
}

fn image(inos: u64, meta: &[u8]) -> Vec<u8> {
    let mut img = vec![0u8; 1536];
    img[1024..1028].copy_from_slice(&0xe0f5_e1e2u32.to_le_bytes());
    img[1036] = 9;
    img[1040..1048].copy_from_slice(&inos.to_le_bytes());
    img[1064..1068].copy_from_slice(&3u32.to_le_bytes());
    img.extend_from_slice(meta);
    img
}

#[test]
fn filter_follows_the_hash() {
    for bit in 0..32 {
        assert_eq!(bloom_filter_check(1 << bit, 3, b"selinux"), bit == 14);
        assert_eq!(bloom_filter_check(1 << bit, 1, b"comment"), bit == 2);
        assert_eq!(bloom_filter_check(1 << bit, 1, b"selinux"), bit == 29);
    }
    assert!(bloom_filter_check(u32::MAX, 3, b"anything"));
    assert!(!bloom_filter_check(0, 3, b"selinux"));
}

#[test]
fn filter_takes_five_bits_of_a_hash() {
    assert!(bloom_filter_admits(1 << 5, 5));
    assert!(bloom_filter_admits(1 << 5, 37));
    assert!(!bloom_filter_admits(1 << 5, 6));
    assert!(bloom_filter_admits(1 << 31, u32::MAX));
    assert!(bloom_filter_admits(u32::MAX, 0));
    // What was added passes, and so does what passed before.
    let filter = (1 << 5) | (1 << (6 % 32));
    assert!(bloom_filter_admits(filter, 6) && bloom_filter_admits(filter, 5));
}

#[test]
fn prefixes() {
    let all = [
        "",
        "user.",
        "trusted.",
        "security.",
        "system.",
        "system.posix_acl_access",
        "system.posix_acl_default",
        "unknown.",
    ];
    for (i, p) in all.iter().enumerate() {
        assert_eq!(short_prefix(i as u8), *p);
        assert_eq!(short_prefix(i as u8 | 0x80), *p);
    }
    assert_eq!(short_prefix(127), "unknown.");
}

#[test]
fn alignment() {
    for (n, r) in [(0, 0), (1, 4), (2, 4), (3, 4), (4, 4), (5, 8), (4097, 4100)] {
        assert_eq!(align4(n), r);
    }
}

#[test]
fn attributes_are_handed_out() {
    let mut data = vec![0u8; 8];
    data.extend_from_slice(&body(
        0,
        0,
        &[
            entry(3, b"selinux", b"u:object_r:system_file:s0\0"),
            entry(1, b"comment", b"hello from erofs poc"),
        ],
    ));
    let mut iter = XattrIter::new(&data, 8, 2).unwrap();
    assert_eq!(
        iter.next_entry().unwrap(),
        Some(("security.selinux".to_string(), "u:object_r:system_file:s0".to_string()))
    );
    assert_eq!(
        iter.next_entry().unwrap(),
        Some(("user.comment".to_string(), "hello from erofs poc".to_string()))
    );
    assert_eq!(iter.next_entry().unwrap(), None);
    assert_eq!(iter.next_entry().unwrap(), None);
}

#[test]
fn shared_attributes_are_passed_over() {
    let data = body(0, 2, &[entry(2, b"x", b"y")]);
    let mut iter = XattrIter::new(&data, 0, 3).unwrap();
    assert_eq!(iter.next_entry().unwrap(), Some(("trusted.x".to_string(), "y".to_string())));
    assert_eq!(iter.next_entry().unwrap(), None);
    let r = XattrIter::new(&data, 0, 1);
    assert!(matches!(r, Err(Error::CorruptedData(t)) if t == "corrupted inode: shared_count > xattr_count"));
}

#[test]
fn every_padding_is_skipped() {
    for n in 0..9 {
        let value = vec![b'v'; n];
        let data = body(0, 0, &[entry(1, b"a", &value), entry(1, b"b", b"end")]);
        let mut iter = XattrIter::new(&data, 0, 2).unwrap();
        let first = iter.next_entry().unwrap().unwrap();
        assert_eq!(first.1.as_bytes(), &value[..]);
        assert_eq!(iter.next_entry().unwrap(), Some(("user.b".to_string(), "end".to_string())));
    }
}

#[test]
fn truncated_attributes_are_errors() {
    let data = body(0, 0, &[entry(1, b"abcd", b"value")]);
    let mut iter = XattrIter::new(&data[..20], 0, 1).unwrap();
    let r = iter.next_entry();
    assert!(matches!(
        r,
        Err(Error::CorruptedData(t)) if t == "xattr entry extends past image boundary - truncated or corrupt"
    ));
    let mut iter = XattrIter::new(&data[..14], 0, 1).unwrap();
    assert!(matches!(iter.next_entry(), Err(Error::UnexpectedEof)));
    assert!(matches!(XattrIter::new(&data[..11], 0, 1), Err(Error::UnexpectedEof)));
    assert!(matches!(XattrIter::new(&data, data.len() + 1, 1), Err(Error::OutOfBounds(_))));
    // The shared attributes reach behind the end.
    let data = body(0, 0, &[]);
    let mut with_shared = data.clone();
    with_shared[4] = 9;
    let mut iter = XattrIter::new(&with_shared, 0, 10).unwrap();
    assert!(matches!(iter.next_entry(), Err(Error::OutOfBounds(_))));
}

#[test]
fn values_as_text() {
    assert_eq!(format_value(b"abc\0\0"), "abc");
    assert_eq!(format_value(b"a\0c"), "a\0c");
    assert_eq!(format_value(b""), "");
    assert_eq!(format_value(&[0x00, 0xff, 0x9a]), "00ff9a");
    assert_eq!(format_value("\u{e9}\0".as_bytes()), "\u{e9}");
    let data = body(0, 0, &[entry(1, b"k\xff", b"v")]);
    let mut iter = XattrIter::new(&data, 0, 1).unwrap();
    assert_eq!(iter.next_entry().unwrap(), Some(("user.k\u{fffd}".to_string(), "v".to_string())));
}

#[test]
fn headers_are_read() {
    let b = [1, 2, 3, 4, 5, 6, 7, 8, 9, 10, 11, 12];
    assert_eq!(InodeHeader::read_at(&b, 1).unwrap(), InodeHeader { format: 0x0302, xattr_count: 0x0504 });
    assert_eq!(
        XattrBodyHeader::read_at(&b, 0).unwrap(),
        XattrBodyHeader { name_filter: 0x0403_0201, shared_count: 5 }
    );
    assert_eq!(
        XattrEntry::read_at(&b, 8).unwrap(),
        XattrEntry { name_len: 9, name_index: 10, value_len: 0x0c0b }
    );
    assert!(matches!(XattrEntry::read_at(&b, 9), Err(Error::UnexpectedEof)));
    assert!(matches!(InodeHeader::read_at(&b, 13), Err(Error::OutOfBounds(_))));
    assert_eq!((InodeHeader::size(), XattrBodyHeader::size(), XattrEntry::size()), (4, 12, 4));
}

#[test]
fn scan_finds_the_inodes_that_pass() {
    let mut meta = vec![0u8; 32 * 12];
    // Node 1 has no attributes, node 2 a filter without the name, node 5 is a long
    // inode that passes and node 8 a short one.
    meta[32 * 2 + 2] = 1;
    meta[32 * 3..32 * 3 + 4].copy_from_slice(&1u32.to_le_bytes());
    meta[32 * 5] = 1;
    meta[32 * 5 + 2] = 2;
    meta[32 * 7..32 * 7 + 4].copy_from_slice(&(SELINUX | 1).to_le_bytes());
    meta[32 * 8 + 2] = 3;
    meta[32 * 9..32 * 9 + 4].copy_from_slice(&u32::MAX.to_le_bytes());
    let mut img = image(12, &meta);
    let mut scan = XattrScan::new(&img).unwrap();
    assert_eq!(scan.super_block().inos, 12);
    let first = scan.next_inode(3, b"selinux").unwrap();
    assert_eq!(
        first,
        XattrInode { nid: 5, xattr_count: 2, name_filter: SELINUX | 1, xattr_start: 1536 + 32 * 7 }
    );
    let second = scan.next_inode(3, b"selinux").unwrap();
    assert_eq!(
        second,
        XattrInode { nid: 8, xattr_count: 3, name_filter: u32::MAX, xattr_start: 1536 + 32 * 9 }
    );
    // Node 9, where the attributes of node 8 start, is looked at like any other: its
    // own filter is empty.
    assert!(scan.next_inode(3, b"selinux").is_none());
    assert!(scan.next_inode(3, b"selinux").is_none());
    // The scan ends with the count of inodes.
    img[1040] = 8;
    let mut scan = XattrScan::new(&img).unwrap();
    assert_eq!(scan.next_match(14).map(|i| i.nid), Some(5));
    assert!(scan.next_match(14).is_none());
    // It ends where the image does.
    img[1040] = 0xff;
    img.truncate(1536 + 32 * 5 + 3);
    let mut scan = XattrScan::new(&img).unwrap();
    assert!(scan.next_match(14).is_none());
}

#[test]
fn scan_checks_the_super_block() {
    let mut img = image(1, &[]);
    img[1024..1028].copy_from_slice(&0x0012_abcdu32.to_le_bytes());
    let r = XattrScan::new(&img);
    assert!(matches!(r, Err(Error::InvalidSuperblock(t)) if t == "bad magic: 0x0012abcd"));
    let r = XattrScan::new(&img[..1000]);
    assert!(matches!(r, Err(Error::InvalidSuperblock(t)) if t == "failed to read super block"));
    assert!(matches!(XattrScan::new(&img[..1100]), Err(Error::UnexpectedEof)));
    let mut img = image(1, &[]);
    img[1036] = 64;
    assert!(matches!(XattrScan::new(&img), Err(Error::InvalidSuperblock(t)) if t == "invalid block size"));
}
