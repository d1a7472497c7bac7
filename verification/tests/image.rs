use erofs_rs::backend::{Image, SliceImage};
use erofs_rs::error::Error;
use erofs_rs::sync::{EroFS, ReadDir, WalkDir};
use erofs_rs::types::{DirentFileType, Inode, InodeBody, InodeCompact};

const FILE: u16 = 0o100644;
const DIR: u16 = 0o040755;
const BLOCK: usize = 512;
const META: usize = 1536;

fn put(img: &mut Vec<u8>, at: usize, bytes: &[u8]) {
    if img.len() < at + bytes.len() {
        img.resize(at + bytes.len(), 0);
    }
    img[at..at + bytes.len()].copy_from_slice(bytes);
}

/// A short inode: `layout` is 0 for flat, 2 for inline and 4 for chunks.
fn put_inode(img: &mut Vec<u8>, nid: usize, layout: u16, mode: u16, size: u32, data: u32) {
    let mut b = vec![0u8; 32];
    b[0..2].copy_from_slice(&(layout << 1).to_le_bytes());
    b[4..6].copy_from_slice(&mode.to_le_bytes());
    b[8..12].copy_from_slice(&size.to_le_bytes());
    b[16..20].copy_from_slice(&data.to_le_bytes());
    put(img, META + 32 * nid, &b);
}

fn dir_block(entries: &[(u64, u8, &str)]) -> Vec<u8> {
    let mut heads = Vec::new();
    let mut names = Vec::new();
    for (nid, file_type, name) in entries {
        heads.extend_from_slice(&nid.to_le_bytes());
        heads.extend_from_slice(&((12 * entries.len() + names.len()) as u16).to_le_bytes());
        heads.push(*file_type);
        heads.push(0);
        names.extend_from_slice(name.as_bytes());
    }
    heads.extend_from_slice(&names);
    heads
}

fn pattern(n: usize) -> Vec<u8> {
    (0..n).map(|i| (i * 7 % 251) as u8).collect()
}

/// An image with blocks of 512 bytes:
///
/// ```text
/// /a.txt      "hello"
/// /chunked    600 bytes in chunks of one block
/// /dir/x      "nested"
/// /inline     512 + 9 bytes, the last 9 behind the inode
/// /plain      1300 bytes
/// ```
fn image() -> Vec<u8> {
    let mut img = vec![0u8; 32 * BLOCK];
    let mut sb = vec![0u8; 128];
    sb[0..4].copy_from_slice(&0xe0f5_e1e2u32.to_le_bytes());
    sb[12] = 9;
    sb[16..24].copy_from_slice(&32u64.to_le_bytes());
    sb[40..44].copy_from_slice(&3u32.to_le_bytes());
    put(&mut img, 1024, &sb);

    let root = dir_block(&[
        (0, 2, "."),
        (0, 2, ".."),
        (1, 1, "a.txt"),
        (8, 1, "chunked"),
        (2, 2, "dir"),
        (5, 1, "inline"),
        (3, 1, "plain"),
    ]);
    put_inode(&mut img, 0, 0, DIR, BLOCK as u32, 10);
    put(&mut img, 10 * BLOCK, &root);

    put_inode(&mut img, 1, 0, FILE, 5, 11);
    put(&mut img, 11 * BLOCK, b"hello");

    let sub = dir_block(&[(2, 2, "."), (0, 2, ".."), (4, 1, "x")]);
    put_inode(&mut img, 2, 0, DIR, sub.len() as u32, 12);
    put(&mut img, 12 * BLOCK, &sub);
    put_inode(&mut img, 4, 0, FILE, 6, 13);
    put(&mut img, 13 * BLOCK, b"nested");

    put_inode(&mut img, 3, 0, FILE, 1300, 14);
    put(&mut img, 14 * BLOCK, &pattern(1300));

    put_inode(&mut img, 5, 2, FILE, 521, 17);
    put(&mut img, 17 * BLOCK, &pattern(512));
    put(&mut img, META + 32 * 6, b"inline nw");

    put_inode(&mut img, 8, 4, FILE, 600, 0);
    put(&mut img, META + 32 * 9, &19u32.to_le_bytes());
    put(&mut img, META + 32 * 9 + 4, &18u32.to_le_bytes());
    put(&mut img, 19 * BLOCK, &pattern(512));
    put(&mut img, 18 * BLOCK, &[9u8; 88]);
    img
}

fn open_fs(img: &[u8]) -> EroFS<SliceImage<'_>> {
    EroFS::new(SliceImage::new(img)).expect("the image has a super block")
}

fn content(img: &[u8], path: &str) -> Vec<u8> {
    let fs = open_fs(img);
    let mut file = fs.open(path.as_bytes()).expect("the file is there");
    let mut out = Vec::new();
    let n = file.read_to_end(&mut out).expect("the file can be read");
    assert_eq!(n, out.len());
    out
}

fn walked<I: Image>(mut walk: WalkDir<'_, I>) -> Vec<(usize, String, String)> {
    let mut all = Vec::new();
    while let Some(entry) = walk.next_entry() {
        let entry = entry.expect("the entry can be read");
        all.push((
            entry.depth,
            String::from_utf8(entry.dir_entry.path()).expect("the path is text"),
            entry.dir_entry.file_name(),
        ));
    }
    assert!(walk.next_entry().is_none());
    all
}

#[test]
fn slice_image_gives_ranges() {
    let data = b"Hello, world!";
    let image = SliceImage::new(data);
    assert_eq!(image.get(0..5), Some(&b"Hello"[..]));
    assert_eq!(image.get_cursor(100), None);
    assert_eq!(image.get_cursor(7), Some(&b"world!"[..]));
    assert_eq!(image.get_cursor(13), Some(&b""[..]));
    assert_eq!(image.get(5..14), None);
    assert_eq!(Image::len(&image), 13);
    assert!(!Image::is_empty(&image));
    assert!(Image::is_empty(&SliceImage::new(b"")));
}

#[test]
fn super_block_is_read() {
    let img = image();
    let fs = open_fs(&img);
    assert_eq!(fs.block_size(), 512);
    assert_eq!(fs.super_block().magic, 0xe0f5_e1e2);
    assert_eq!(fs.super_block().inos, 32);
    assert_eq!(fs.super_block().meta_blk_addr, 3);
}

#[test]
fn short_image_has_no_super_block() {
    let r = EroFS::new(SliceImage::new(&[0u8; 1000]));
    assert!(matches!(r, Err(Error::InvalidSuperblock(t)) if t == "failed to read super block"));
    let r = EroFS::new(SliceImage::new(&[0u8; 1100]));
    assert!(matches!(r, Err(Error::UnexpectedEof)));
}

#[test]
fn wrong_magic_is_refused() {
    let mut img = image();
    img[1024] = 0;
    let r = EroFS::new(SliceImage::new(&img));
    assert!(matches!(r, Err(Error::InvalidSuperblock(t)) if t == "invalid magic number"));
}

#[test]
fn block_sizes_have_limits() {
    for (bits, fine) in [(8u8, false), (9, true), (12, true), (24, true), (25, false), (255, false)] {
        let mut img = image();
        img[1024 + 12] = bits;
        match EroFS::new(SliceImage::new(&img)) {
            Ok(fs) => {
                assert!(fine);
                assert_eq!(fs.block_size(), 1usize << bits);
            }
            Err(Error::InvalidSuperblock(t)) => {
                assert!(!fine);
                assert_eq!(t, "invalid block size");
            }
            Err(e) => panic!("{:?}", e),
        }
    }
}

#[test]
fn root_path_leads_to_the_root_directory() {
    let img = image();
    let fs = open_fs(&img);
    let root = fs.get_path_inode(b"/").unwrap().unwrap();
    assert_eq!(root.id(), 0);
    assert!(root.is_dir());
    assert_eq!(root, fs.get_inode(0).unwrap());
}

#[test]
fn paths_are_normalized() {
    let img = image();
    let fs = open_fs(&img);
    for path in ["/dir/x", "dir/x", "/dir/../dir/./x", "//dir//x", "/../dir/x"] {
        let inode = fs.get_path_inode(path.as_bytes()).unwrap();
        assert_eq!(inode.map(|i| i.id()), Some(4), "{}", path);
    }
    for path in ["/nothing", "/dir/y", "/a.tx", "/a.txtx", "/zzz", "/dir/x/y"] {
        assert_eq!(fs.get_path_inode(path.as_bytes()).unwrap(), None, "{}", path);
        assert!(matches!(fs.open(path.as_bytes()), Err(Error::PathNotFound(t)) if t == path));
    }
}

#[test]
fn every_entry_is_found_by_its_path() {
    let img = image();
    let fs = open_fs(&img);
    let mut walk = fs.walk_dir(b"/").unwrap();
    let mut n = 0;
    while let Some(entry) = walk.next_entry() {
        let entry = entry.unwrap();
        let found = fs.get_path_inode(&entry.dir_entry.path()).unwrap();
        assert_eq!(found, Some(entry.inode));
        n += 1;
    }
    assert_eq!(n, 6);
}

#[test]
fn files_give_their_content() {
    let img = image();
    assert_eq!(content(&img, "/a.txt"), b"hello");
    assert_eq!(content(&img, "/dir/x"), b"nested");
    assert_eq!(content(&img, "/plain"), pattern(1300));
    let mut inline = pattern(512);
    inline.extend_from_slice(b"inline nw");
    assert_eq!(content(&img, "/inline"), inline);
    let mut chunked = pattern(512);
    chunked.extend_from_slice(&[9u8; 88]);
    assert_eq!(content(&img, "/chunked"), chunked);
}

#[test]
fn reads_of_any_size_give_the_content() {
    let img = image();
    let fs = open_fs(&img);
    for room in [1usize, 3, 100, 511, 512, 513, 2000] {
        let mut file = fs.open(b"/plain").unwrap();
        assert_eq!(file.size(), 1300);
        let mut out = Vec::new();
        let mut buf = vec![0u8; room];
        loop {
            let n = file.read(&mut buf).unwrap();
            if n == 0 {
                break;
            }
            out.extend_from_slice(&buf[..n]);
        }
        assert_eq!(out, pattern(1300), "{}", room);
        assert_eq!(file.read(&mut buf).unwrap(), 0);
    }
}

#[test]
fn a_read_leaves_the_rest_of_the_buffer() {
    let img = image();
    let fs = open_fs(&img);
    let mut file = fs.open(b"/a.txt").unwrap();
    let mut buf = [1u8; 8];
    assert_eq!(file.read(&mut buf).unwrap(), 5);
    assert_eq!(&buf, b"hello\x01\x01\x01");
    let mut none: [u8; 0] = [];
    let mut file = fs.open(b"/a.txt").unwrap();
    assert_eq!(file.read(&mut none).unwrap(), 0);
    assert_eq!(file.read(&mut buf).unwrap(), 5);
}

#[test]
fn reading_stops_at_a_block_that_cannot_be_read() {
    let mut img = image();
    // The second chunk lies behind the end of the image.
    put(&mut img, META + 32 * 9 + 4, &5000u32.to_le_bytes());
    let fs = open_fs(&img);
    let mut file = fs.open(b"/chunked").unwrap();
    let mut out = b"before".to_vec();
    let r = file.read_to_end(&mut out);
    assert!(matches!(r, Err(Error::OutOfBounds(t)) if t == "failed to get inode data"));
    assert_eq!(&out[..6], b"before");
    assert_eq!(&out[6..], &pattern(512)[..]);
}

#[test]
fn chunk_addresses_are_checked() {
    let mut img = image();
    put(&mut img, META + 32 * 9, &u32::MAX.to_le_bytes());
    let mut buf = [0u8; 600];
    let r = open_fs(&img).open(b"/chunked").unwrap().read(&mut buf);
    assert!(matches!(r, Err(Error::NotSupported(t)) if t == "sparse chunks are not supported"));
    put(&mut img, META + 32 * 9, &0x8000_0000u32.to_le_bytes());
    let r = open_fs(&img).open(b"/chunked").unwrap().read(&mut buf);
    assert!(matches!(r, Err(Error::CorruptedData(t)) if t == "invalid chunk address"));
    // A chunk format with an index, and one with unknown bits.
    put_inode(&mut img, 8, 4, FILE, 600, 32);
    let r = open_fs(&img).open(b"/chunked").unwrap().read(&mut buf);
    assert!(matches!(r, Err(Error::NotSupported(t)) if t == "chunk indexes are not supported"));
    put_inode(&mut img, 8, 4, FILE, 600, 64);
    let r = open_fs(&img).open(b"/chunked").unwrap().read(&mut buf);
    assert!(matches!(r, Err(Error::CorruptedData(t)) if t == "invalid chunk format"));
}

#[test]
fn chunks_may_have_several_blocks() {
    let mut img = image();
    // Chunks of two blocks: both blocks of the file lie in the first chunk.
    put_inode(&mut img, 8, 4, FILE, 600, 1);
    put(&mut img, META + 32 * 9, &14u32.to_le_bytes());
    assert_eq!(content(&img, "/chunked"), &pattern(1300)[..600]);
}

#[test]
fn compressed_files_are_refused() {
    for layout in [1u16, 3] {
        let mut img = image();
        put_inode(&mut img, 1, layout, FILE, 5, 11);
        let mut buf = [0u8; 8];
        let r = open_fs(&img).open(b"/a.txt").unwrap().read(&mut buf);
        assert!(matches!(r, Err(Error::NotSupported(t)) if t == "compressed data is not supported"));
    }
}

#[test]
fn opening_checks_the_type() {
    let img = image();
    let fs = open_fs(&img);
    assert!(matches!(fs.open(b"/dir"), Err(Error::NotAFile(t)) if t == "inode 2 is not a regular file"));
    assert!(matches!(fs.open(b"/no"), Err(Error::PathNotFound(t)) if t == "/no"));
    assert!(matches!(fs.open(b"/n\xff"), Err(Error::PathNotFound(t)) if t == "/n\u{fffd}"));
    assert!(matches!(fs.walk_dir(b"/a.txt"), Err(Error::NotADirectory(t)) if t == "/a.txt"));
    assert!(matches!(fs.read_dir(b"/no"), Err(Error::PathNotFound(t)) if t == "/no"));
    let inode = fs.get_inode(2).unwrap();
    assert!(matches!(fs.open_inode_file(inode), Err(Error::NotAFile(_))));
    let inode = fs.get_inode(1).unwrap();
    assert_eq!(fs.open_inode_file(inode).unwrap().size(), 5);
}

#[test]
fn read_dir_lists_one_directory() {
    let img = image();
    let fs = open_fs(&img);
    let names: Vec<String> = walked(fs.read_dir(b"/").unwrap()).into_iter().map(|e| e.1).collect();
    assert_eq!(names, ["/a.txt", "/chunked", "/dir", "/inline", "/plain"]);
    assert_eq!(walked(fs.read_dir(b"/dir").unwrap()), [(1, "/dir/x".to_string(), "x".to_string())]);
}

#[test]
fn walk_dir_visits_the_tree() {
    let img = image();
    let fs = open_fs(&img);
    let all = walked(fs.walk_dir(b"/").unwrap());
    let seen: Vec<(usize, &str)> = all.iter().map(|e| (e.0, e.1.as_str())).collect();
    assert_eq!(
        seen,
        [
            (1, "/a.txt"),
            (1, "/chunked"),
            (1, "/dir"),
            (2, "/dir/x"),
            (1, "/inline"),
            (1, "/plain"),
        ]
    );
}

#[test]
fn max_depth_limits_a_walk() {
    let img = image();
    let fs = open_fs(&img);
    let one = walked(fs.walk_dir(b"/").unwrap().max_depth(1));
    assert_eq!(one, walked(fs.read_dir(b"/").unwrap()));
    assert_eq!(one.len(), 5);
    let two = walked(fs.walk_dir(b"/").unwrap().max_depth(2));
    assert_eq!(two, walked(fs.walk_dir(b"/").unwrap()));
    assert_eq!(two.len(), 6);
}

#[test]
fn a_smaller_depth_gives_the_upper_part() {
    let mut img = image();
    // "/dir/sub/y" is three levels deep.
    let dir = dir_block(&[(2, 2, "."), (0, 2, ".."), (12, 2, "sub"), (4, 1, "x")]);
    put_inode(&mut img, 2, 0, DIR, dir.len() as u32, 12);
    put(&mut img, 12 * BLOCK, &dir);
    let sub = dir_block(&[(12, 2, "."), (2, 2, ".."), (1, 1, "y")]);
    put_inode(&mut img, 12, 0, DIR, sub.len() as u32, 20);
    put(&mut img, 20 * BLOCK, &sub);
    let fs = open_fs(&img);
    let at = |depth| walked(fs.walk_dir(b"/").unwrap().max_depth(depth));
    assert_eq!(at(0), walked(fs.walk_dir(b"/").unwrap()));
    assert_eq!(at(0).iter().map(|e| e.0).max(), Some(3));
    for b in [0usize, 1, 2, 3, 4] {
        for a in 1..5 {
            if a <= b || b == 0 {
                let upper: Vec<_> = at(b).into_iter().filter(|e| e.0 <= a).collect();
                assert_eq!(at(a), upper);
            }
        }
    }
    // A later call replaces an earlier one.
    assert_eq!(walked(fs.walk_dir(b"/").unwrap().max_depth(1).max_depth(2)), at(2));
}

#[test]
fn directory_entries_have_their_types() {
    let img = image();
    let fs = open_fs(&img);
    let mut dir = ReadDir::new(&fs, fs.get_inode(0).unwrap(), b"/").unwrap();
    let first = dir.next_entry().unwrap().unwrap();
    assert_eq!(first.file_name(), "a.txt");
    assert_eq!(first.file_type(), DirentFileType::RegularFile);
    assert_eq!(first.nid(), 1);
    assert_eq!(first.path(), b"/a.txt");
    let mut names = Vec::new();
    while let Some(entry) = dir.next() {
        names.push(entry.unwrap().file_name());
    }
    assert_eq!(names, ["chunked", "dir", "inline", "plain"]);
    assert!(dir.next_entry().unwrap().is_none());
}

#[test]
fn directories_of_several_blocks_are_listed() {
    let mut img = image();
    let mut first = dir_block(&[(0, 2, "."), (0, 2, ".."), (1, 1, "a")]);
    first.resize(BLOCK, 0);
    first.extend_from_slice(&dir_block(&[(1, 1, "b"), (2, 2, "c"), (3, 1, "d")]));
    put_inode(&mut img, 2, 0, DIR, first.len() as u32, 20);
    put(&mut img, 20 * BLOCK, &first);
    // The directory names itself as "c", so the walk is kept to one level.
    let fs = open_fs(&img);
    let names: Vec<String> = walked(fs.read_dir(b"/dir").unwrap()).into_iter().map(|e| e.2).collect();
    assert_eq!(names, ["a", "b", "c", "d"]);
    // The first two entries of every block are found like the others.
    assert_eq!(fs.get_path_inode(b"/dir/a").unwrap().map(|i| i.id()), Some(1));
    assert_eq!(fs.get_path_inode(b"/dir/d").unwrap().map(|i| i.id()), Some(3));
    assert_eq!(fs.get_path_inode(b"/dir/b").unwrap().map(|i| i.id()), Some(1));
    assert_eq!(fs.get_path_inode(b"/dir/c").unwrap().map(|i| i.id()), Some(2));
    assert_eq!(fs.get_path_inode(b"/dir/e").unwrap(), None);
}

#[test]
fn every_listed_file_can_be_opened() {
    let mut img = image();
    // Names before ".", a second block with three files and a last one with a single file.
    let mut dir = dir_block(&[(1, 1, "+x"), (4, 1, "-"), (2, 2, "."), (0, 2, ".."), (3, 1, "a")]);
    dir.resize(BLOCK, 0);
    dir.extend_from_slice(&dir_block(&[(1, 1, "b"), (4, 1, "c"), (3, 1, "d")]));
    dir.resize(2 * BLOCK, 0);
    dir.extend_from_slice(&dir_block(&[(5, 1, "e")]));
    put_inode(&mut img, 2, 0, DIR, dir.len() as u32, 20);
    put(&mut img, 20 * BLOCK, &dir);
    let fs = open_fs(&img);
    let mut walk = fs.walk_dir(b"/").unwrap();
    let mut below = Vec::new();
    while let Some(entry) = walk.next_entry() {
        let entry = entry.unwrap();
        let path = entry.dir_entry.path();
        assert_eq!(fs.get_path_inode(&path).unwrap(), Some(entry.inode));
        if entry.inode.is_file() {
            assert_eq!(fs.open(&path).unwrap().size(), entry.inode.data_size());
        }
        if entry.depth == 2 {
            below.push(entry.dir_entry.file_name());
        }
    }
    assert_eq!(below, ["+x", "-", "a", "b", "c", "d", "e"]);
    assert_eq!(fs.get_path_inode(b"/dir/").unwrap().map(|i| i.id()), Some(2));
}

#[test]
fn nothing_lies_below_a_file() {
    let mut img = image();
    // The bytes of "/a.txt" read as a directory block.
    let block = dir_block(&[(2, 2, "."), (0, 2, ".."), (4, 1, "x")]);
    put_inode(&mut img, 1, 0, FILE, block.len() as u32, 11);
    put(&mut img, 11 * BLOCK, &block);
    let fs = open_fs(&img);
    assert_eq!(fs.open(b"/a.txt").unwrap().size(), block.len());
    assert_eq!(fs.get_path_inode(b"/a.txt/x").unwrap(), None);
    assert!(matches!(fs.open(b"/a.txt/x"), Err(Error::PathNotFound(t)) if t == "/a.txt/x"));
    assert!(matches!(fs.open(b"/a.txt/x/y"), Err(Error::PathNotFound(_))));
    assert!(matches!(fs.walk_dir(b"/a.txt/x"), Err(Error::PathNotFound(_))));
}

#[test]
fn depth_counts_the_parts_of_the_path() {
    let img = image();
    let fs = open_fs(&img);
    for (root, parts) in [("/", 0), ("/dir", 1)] {
        let mut last = 0;
        for (depth, path, _) in walked(fs.walk_dir(root.as_bytes()).unwrap()) {
            assert_eq!(path.split('/').filter(|s| !s.is_empty()).count(), parts + depth);
            assert!(1 <= depth && depth <= last + 1);
            last = depth;
        }
    }
}

#[test]
fn unreadable_entries_are_reported() {
    let mut img = image();
    // "/dir/x" leads to a node behind the end of the image.
    let sub = dir_block(&[(2, 2, "."), (0, 2, ".."), (1 << 40, 1, "x")]);
    put(&mut img, 12 * BLOCK, &sub);
    let fs = open_fs(&img);
    let mut walk = fs.walk_dir(b"/dir").unwrap();
    assert!(matches!(walk.next_entry(), Some(Err(Error::OutOfBounds(t))) if t == "failed to read inode format"));
    assert!(walk.next_entry().is_none());
    // The type of "/dir/x" does not exist.
    let sub = dir_block(&[(2, 2, "."), (0, 2, ".."), (1, 8, "x")]);
    put(&mut img, 12 * BLOCK, &sub);
    let fs = open_fs(&img);
    let mut walk = fs.walk_dir(b"/dir").unwrap();
    assert!(matches!(walk.next_entry(), Some(Err(Error::InvalidFileType(8)))));
}

#[test]
fn inodes_far_behind_the_image_are_out_of_bounds() {
    let img = image();
    let fs = open_fs(&img);
    assert!(matches!(fs.get_inode(u64::MAX), Err(Error::OutOfBounds(_))));
    // The last bytes of the image are too few for an inode.
    let nid = ((img.len() - META) / 32) as u64;
    assert!(matches!(fs.get_inode(nid), Err(Error::UnexpectedEof)));
}

#[test]
fn blocks_behind_the_file_are_out_of_bounds() {
    let img = image();
    let fs = open_fs(&img);
    let plain = fs.get_inode(3).unwrap();
    assert_eq!(fs.get_inode_block(&plain, 0).unwrap().len(), 512);
    assert_eq!(fs.get_inode_block(&plain, 1299).unwrap().len(), 276);
    assert!(matches!(fs.get_inode_block(&plain, 1536), Err(Error::OutOfBounds(t)) if t == "block index out of range"));
    let empty = Inode {
        nid: 7,
        body: InodeBody::Compact(InodeCompact {
            format: 0,
            xattr_count: 0,
            mode: FILE,
            nlink: 1,
            size: 0,
            inode_data: 0,
            inode: 0,
            uid: 0,
            gid: 0,
        }),
    };
    assert!(matches!(fs.get_inode_block(&empty, 0), Err(Error::OutOfBounds(_))));
    let mut buf = [0u8; 4];
    assert_eq!(fs.open_inode_file(empty).unwrap().read(&mut buf).unwrap(), 0);
}
