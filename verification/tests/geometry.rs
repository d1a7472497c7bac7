use erofs_rs::decomp::VLEIndex;
use erofs_rs::error::Error;
use erofs_rs::filesystem::{count_units, BlockPlan, EroFSCore};
use erofs_rs::reader::{FileReader, ReadStep};
use erofs_rs::types::{
    is_compact, Inode, InodeBody, InodeCompact, InodeExtended, Layout, SuperBlock,
};

fn geometry(bits: u8, meta: u32) -> EroFSCore {
    let mut sb = vec![0u8; 128];
    sb[0..4].copy_from_slice(&0xe0f5_e1e2u32.to_le_bytes());
    sb[12] = bits;
    sb[40..44].copy_from_slice(&meta.to_le_bytes());
    EroFSCore::new(&sb).unwrap()
}

fn inode(nid: u64, layout: u16, xattr_count: u16, size: u32, inode_data: u32) -> Inode {
    Inode {
        nid,
        body: InodeBody::Compact(InodeCompact {
            format: layout << 1,
            xattr_count,
            mode: 0o100644,
            nlink: 1,
            size,
            inode_data,
            inode: 1,
            uid: 0,
            gid: 0,
        }),
    }
}

#[test]
fn units_round_up() {
    assert_eq!(count_units(0, 512), 0);
    assert_eq!(count_units(1, 512), 1);
    assert_eq!(count_units(512, 512), 1);
    assert_eq!(count_units(513, 512), 2);
    assert_eq!(count_units(usize::MAX, 2), usize::MAX / 2 + 1);
}

#[test]
fn inode_offsets() {
    let c = geometry(12, 2);
    assert_eq!(c.get_inode_offset(0), 8192);
    assert_eq!(c.get_inode_offset(36), 8192 + 36 * 32);
    assert_eq!(c.get_inode_offset(u64::MAX), u64::MAX);
}

#[test]
fn flat_blocks() {
    let c = geometry(12, 0);
    let plain = inode(0, 0, 0, 10_000, 7);
    let plan = |offset| c.plan_inode_block_read(&plain, offset).unwrap();
    assert_eq!(plan(0), BlockPlan::Direct { offset: 7 * 4096, size: 4096 });
    assert_eq!(plan(4095), BlockPlan::Direct { offset: 7 * 4096, size: 4096 });
    assert_eq!(plan(4096), BlockPlan::Direct { offset: 8 * 4096, size: 4096 });
    assert_eq!(plan(8192), BlockPlan::Direct { offset: 9 * 4096, size: 1808 });
}

#[test]
fn inline_blocks() {
    let c = geometry(12, 1);
    let tail = inode(2, 2, 3, 5000, 7);
    let plan = |offset| c.plan_inode_block_read(&tail, offset).unwrap();
    assert_eq!(plan(0), BlockPlan::Direct { offset: 7 * 4096, size: 4096 });
    // Behind the inode come 12 + 4 * 2 bytes of attributes.
    assert_eq!(plan(4096), BlockPlan::Direct { offset: 4096 + 64 + 32 + 20, size: 904 });
}

#[test]
fn chunked_blocks() {
    let c = geometry(12, 1);
    // Chunks of four blocks.
    let chunks = inode(0, 4, 0, 5 * 4096 + 10, 2);
    let plan = c.plan_inode_block_read(&chunks, 5 * 4096).unwrap();
    assert_eq!(
        plan,
        BlockPlan::Chunked {
            addr_offset: 4096 + 32 + 4,
            chunk_fixed: 1,
            data_size: 10,
            chunk_index: 1,
            chunk_count: 2,
        }
    );
    assert_eq!(c.resolve_chunk_read(9, 1, 10, 1, 2).unwrap(), (10 * 4096, 10));
    assert_eq!(c.resolve_chunk_read(9, 0, 9999, 1, 2).unwrap(), (9 * 4096, 4096));
    assert_eq!(c.locate_chunk_block(&[9, 0, 0, 0, 7], 1, 10, 1, 2).unwrap(), (10 * 4096, 10));
    assert!(matches!(c.resolve_chunk_read(9, 1, 10, 2, 2), Err(Error::OutOfBounds(t)) if t == "chunk index out of range"));
    assert!(matches!(c.resolve_chunk_read(-1, 1, 10, 0, 2), Err(Error::NotSupported(_))));
    assert!(matches!(c.resolve_chunk_read(-2, 1, 10, 0, 2), Err(Error::CorruptedData(_))));
    assert!(matches!(c.locate_chunk_block(&[0xfe, 0xff, 0xff, 0xff], 0, 1, 0, 1), Err(Error::CorruptedData(_))));
    assert!(matches!(
        c.resolve_chunk_read(1, usize::MAX, 10, 0, 2),
        Err(Error::OutOfBounds(t)) if t == "block position out of range"
    ));
}

#[test]
fn unknown_layouts_are_refused() {
    let c = geometry(9, 1);
    let r = c.plan_inode_block_read(&inode(0, 5, 0, 10, 0), 0);
    assert!(matches!(r, Err(Error::NotSupported(t)) if t == "unknown data layout"));
    assert_eq!(inode(0, 4, 0, 1, 1).layout().unwrap(), Layout::ChunkBased);
}

#[test]
fn direct_reads_are_checked() {
    let c = geometry(9, 1);
    assert!(c.check_direct_read(77, 512).is_ok());
    let r = c.check_direct_read(77, 513);
    assert!(matches!(r, Err(Error::CorruptedData(t)) if t == "invalid direct block size 513 at offset 77"));
}

#[test]
fn inodes_are_read_in_both_forms() {
    let c = geometry(9, 1);
    let mut b: Vec<u8> = (0..64).collect();
    b[0] = 0;
    let i = c.parse_inode(&b, 5).unwrap();
    assert_eq!(i.id(), 5);
    assert_eq!(i.format(), 0x0100);
    assert_eq!(i.mode(), 0x0504);
    assert_eq!(i.data_size(), 0x0b0a_0908);
    assert_eq!(i.raw_block_addr(), 0x1312_1110);
    assert_eq!(i.size(), 32);
    assert_eq!(i.xattr_size(), 12 + 4 * (0x0302 - 1));
    assert_eq!(i.modified(), None);
    b[0] = 1;
    let i = c.parse_inode(&b, 6).unwrap();
    assert_eq!(i.data_size(), 0x0f0e_0d0c_0b0a_0908);
    assert_eq!(i.size(), 64);
    assert_eq!(i.modified(), Some((0x2726_2524_2322_2120, 0x2b2a_2928)));
    assert!(matches!(c.parse_inode(&b[..63], 6), Err(Error::UnexpectedEof)));
    assert!(matches!(c.parse_inode(&b[..1], 6), Err(Error::UnexpectedEof)));
    assert_eq!((InodeCompact::size(), InodeExtended::size(), SuperBlock::size()), (32, 64, 128));
    assert!(is_compact(2) && !is_compact(3));
}

#[test]
fn vle_index_is_little_endian() {
    let i = VLEIndex::from_bytes(&[1, 2, 3, 4, 5, 6, 7, 8, 9]).unwrap();
    assert_eq!(i, VLEIndex { advise: 0x0201, cluster_offset: 0x0403, block_addr: 0x0807_0605 });
    assert!(matches!(VLEIndex::from_bytes(&[0; 7]), Err(Error::NotSupported(t)) if t == "VLE index too short"));
}

#[test]
fn owned_blocks_are_kept() {
    let mut r: FileReader<bytes::Bytes> = FileReader::new(inode(0, 0, 0, 6, 0));
    let mut buf = [0u8; 4];
    assert_eq!(r.step(512, &mut buf), ReadStep::ReadBlock(0));
    assert_eq!(r.owned_block_read(512, &mut buf, b"abcdef".to_vec()), 4);
    assert_eq!(&buf, b"abcd");
    assert_eq!(r.step(512, &mut buf), ReadStep::Done(2));
    assert_eq!(&buf, b"efcd");
    assert_eq!(r.step(512, &mut buf), ReadStep::Done(0));
    assert_eq!(r.size(), 6);
}
