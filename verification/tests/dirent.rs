use erofs_rs::dirent::{
    find_entry, find_nodeid_by_name, read_nth_dirent, read_nth_id_name, DirentBlock,
};
use erofs_rs::error::Error;
use erofs_rs::types::{Dirent, DirentFileType};

fn block(entries: &[(u64, u8, &[u8])]) -> Vec<u8> {
    let mut heads = Vec::new();
    let mut names = Vec::new();
    for (nid, file_type, name) in entries {
        heads.extend_from_slice(&nid.to_le_bytes());
        heads.extend_from_slice(&((12 * entries.len() + names.len()) as u16).to_le_bytes());
        heads.push(*file_type);
        heads.push(0);
        names.extend_from_slice(name);
    }
    heads.extend_from_slice(&names);
    heads
}

fn sorted(n: usize) -> (Vec<Vec<u8>>, Vec<u8>) {
    let names: Vec<Vec<u8>> = (0..n).map(|i| format!("f{:03}", 2 * i).into_bytes()).collect();
    let mut entries: Vec<(u64, u8, &[u8])> = vec![(1, 2, b"."), (1, 2, b"..")];
    for (i, name) in names.iter().enumerate() {
        entries.push((100 + i as u64, 1, name));
    }
    let data = block(&entries);
    (names, data)
}

#[test]
fn lookup_finds_every_sorted_entry() {
    for n in 0..20 {
        let (names, data) = sorted(n);
        for (i, name) in names.iter().enumerate() {
            let found = find_nodeid_by_name(name, &data).unwrap();
            assert_eq!(found, Some(100 + i as u64));
        }
    }
}

#[test]
fn lookup_finds_nothing_that_is_not_there() {
    for n in 0..20 {
        let (_, data) = sorted(n);
        for i in 0..20 {
            let name = format!("f{:03}", 2 * i + 1);
            assert_eq!(find_nodeid_by_name(name.as_bytes(), &data).unwrap(), None);
        }
        for name in ["", "a", "z", "f", "f0000"] {
            assert_eq!(find_nodeid_by_name(name.as_bytes(), &data).unwrap(), None);
        }
    }
}

#[test]
fn lookup_leaves_out_the_first_two_entries() {
    let (_, data) = sorted(3);
    assert_eq!(find_nodeid_by_name(b".", &data).unwrap(), None);
    assert_eq!(find_nodeid_by_name(b"..", &data).unwrap(), None);
    let data = block(&[(5, 1, b"a"), (6, 1, b"b"), (7, 1, b"c")]);
    assert_eq!(find_nodeid_by_name(b"a", &data).unwrap(), None);
    assert_eq!(find_nodeid_by_name(b"b", &data).unwrap(), None);
    assert_eq!(find_nodeid_by_name(b"c", &data).unwrap(), Some(7));
}

#[test]
fn all_entries_of_a_block_are_found() {
    let names: Vec<Vec<u8>> = (0..12).map(|i| format!("f{:02}", i).into_bytes()).collect();
    for n in 1..12usize {
        let entries: Vec<(u64, u8, &[u8])> =
            (0..n).map(|i| (100 + i as u64, 1, &names[i][..])).collect();
        let data = block(&entries);
        for (i, name) in names.iter().enumerate() {
            let expected = if i < n { Some(100 + i as u64) } else { None };
            assert_eq!(find_entry(name, &data).unwrap(), expected);
        }
    }
    assert!(matches!(find_entry(b"a", &[]), Err(Error::UnexpectedEof)));
    // A block without entries.
    assert_eq!(find_entry(b"a", &[0; 12]).unwrap(), None);
}

#[test]
fn looking_up_agrees_with_listing() {
    let mut data = block(&[
        (1, 2, b"."),
        (2, 2, b".."),
        (7, 1, b"a"),
        (8, 2, b"bb"),
        (9, 1, "\u{e9}".as_bytes()),
    ]);
    data.resize(512, 0);
    let mut b = DirentBlock::new(b"/".to_vec(), &data[..]).unwrap();
    let mut listed = Vec::new();
    while let Some(e) = b.next_entry().unwrap() {
        listed.push((e.file_name().into_bytes(), e.nid()));
    }
    assert_eq!(listed.len(), 3);
    let others: [&[u8]; 6] = [b"", b"b", b"bbb", b"a\0", b"z", "\u{ea}".as_bytes()];
    let names = listed.iter().map(|l| l.0.clone()).chain(others.iter().map(|n| n.to_vec()));
    for name in names {
        let expected = listed.iter().find(|l| l.0 == name).map(|l| l.1);
        assert_eq!(find_nodeid_by_name(&name, &data).unwrap(), expected);
        assert_eq!(find_entry(&name, &data).unwrap(), expected);
    }
}

#[test]
fn lookup_stops_at_nul_padding() {
    let mut data = block(&[(1, 2, b"."), (1, 2, b".."), (7, 1, b"name")]);
    data.resize(512, 0);
    assert_eq!(find_nodeid_by_name(b"name", &data).unwrap(), Some(7));
    assert_eq!(read_nth_id_name(&data, 2, 3).unwrap(), (7, &b"name"[..]));
}

#[test]
fn short_blocks_are_errors() {
    assert!(matches!(find_nodeid_by_name(b"a", &[]), Err(Error::UnexpectedEof)));
    assert!(matches!(read_nth_dirent(&[0; 12], 2), Err(Error::OutOfBounds(t)) if t == "failed to get inode data"));
    assert!(matches!(read_nth_dirent(&[0; 12], 1), Err(Error::UnexpectedEof)));
    let d = read_nth_dirent(&[1, 0, 0, 0, 0, 0, 0, 2, 3, 4, 5, 6], 0).unwrap();
    assert_eq!(d, Dirent { nid: 0x0200_0000_0000_0001, name_off: 0x0403, file_type: 5, reserved: 6 });
    assert_eq!(Dirent::size(), 12);
}

#[test]
fn names_out_of_order_are_corrupted() {
    let mut data = block(&[(1, 2, b"."), (1, 2, b".."), (7, 1, b"a"), (8, 1, b"b")]);
    // The name of the last entry starts before that of the one before it.
    data[12 * 3 + 8] = 10;
    let r = find_nodeid_by_name(b"a", &data);
    assert!(matches!(r, Ok(None)));
    let r = read_nth_id_name(&data, 2, 4);
    assert!(matches!(r, Err(Error::CorruptedData(t)) if t == "invalid directory entry name offset"));
}

#[test]
fn a_block_hands_out_its_entries_in_order() {
    let mut data = block(&[(1, 2, b"."), (2, 2, b".."), (7, 1, b"one"), (8, 7, b"two"), (9, 2, b"three")]);
    data.resize(600, 0);
    let mut b = DirentBlock::new(b"/d".to_vec(), &data[..]).unwrap();
    assert_eq!(b.block_size(), 600);
    let e = b.next_entry().unwrap().unwrap();
    assert_eq!((e.nid(), e.file_type(), e.file_name()), (7, DirentFileType::RegularFile, "one".to_string()));
    assert_eq!(e.path(), b"/d/one");
    let e = b.next().unwrap().unwrap();
    assert_eq!((e.nid(), e.file_type(), e.file_name()), (8, DirentFileType::Symlink, "two".to_string()));
    let e = b.next_entry().unwrap().unwrap();
    assert_eq!((e.nid(), e.file_type(), e.file_name()), (9, DirentFileType::Directory, "three".to_string()));
    assert!(b.next_entry().unwrap().is_none());
    assert!(b.next().is_none());
}

#[test]
fn names_are_read_as_text() {
    let data = block(&[(1, 1, b"a\xffb"), (2, 1, b"\xc3\xa9\0\0")]);
    let mut b = DirentBlock::new(Vec::new(), data).unwrap();
    assert_eq!(b.next_entry().unwrap().unwrap().file_name(), "a\u{fffd}b");
    let e = b.next_entry().unwrap().unwrap();
    assert_eq!(e.file_name(), "\u{e9}");
    assert_eq!(e.path(), "\u{e9}".as_bytes());
}

#[test]
fn paths_are_joined() {
    for (dir, name, path) in [
        ("/", "a", "/a"),
        ("/d", "a", "/d/a"),
        ("/d/", "a", "/d/a"),
        ("", "a", "a"),
        ("/d", "/a", "/a"),
    ] {
        let data = block(&[(1, 1, name.as_bytes())]);
        let mut b = DirentBlock::new(dir.as_bytes().to_vec(), data).unwrap();
        assert_eq!(b.next_entry().unwrap().unwrap().path(), path.as_bytes());
    }
}

#[test]
fn unknown_types_are_errors() {
    let data = block(&[(1, 8, b"a"), (2, 0, b"b")]);
    let mut b = DirentBlock::new(Vec::new(), &data[..]).unwrap();
    assert!(matches!(b.next(), Some(Err(Error::InvalidFileType(8)))));
    assert_eq!(b.next().unwrap().unwrap().file_type(), DirentFileType::Unknown);
    assert!(DirentBlock::new(Vec::new(), &b"short"[..]).is_err());
}

#[test]
fn file_type_codes() {
    let types = [
        DirentFileType::Unknown,
        DirentFileType::RegularFile,
        DirentFileType::Directory,
        DirentFileType::CharacterDevice,
        DirentFileType::BlockDevice,
        DirentFileType::Fifo,
        DirentFileType::Socket,
        DirentFileType::Symlink,
    ];
    for (code, t) in types.iter().enumerate() {
        assert_eq!(DirentFileType::from_code(code as u8).unwrap(), *t);
        assert_eq!(t.is_dir(), code == 2);
    }
    assert!(matches!(DirentFileType::from_code(9), Err(Error::InvalidFileType(9))));
}
