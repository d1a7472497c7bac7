//! The index entries that map the clusters of a compressed file.

use crate::error::{not_supported, Error};
use crate::le::{read_u16, read_u32};
use vstd::prelude::*;

#[allow(unused_imports)]
use crate::error::ErrorView;
#[allow(unused_imports)]
use crate::le::{le16, le32};

verus! {

/// An index entry of a compressed file: it maps one logical cluster.
#[derive(Debug, Clone, Copy, PartialEq, Eq, Structural)]
pub struct VLEIndex {
    /// Compression hints.
    pub advise: u16,
    /// Offset within the decompressed cluster.
    pub cluster_offset: u16,
    /// Physical block; only meaningful for the head of a cluster.
    pub block_addr: u32,
}

impl VLEIndex {
    /// Reads an index entry from the first 8 bytes of `data`, which hold it in
    /// little-endian order.
    pub fn from_bytes(data: &[u8]) -> (r: Result<Self, Error>)
        ensures
            data@.len() < 8 ==> r is Err && r->Err_0@ == ErrorView::NotSupported(
                "VLE index too short"@,
            ),
            data@.len() >= 8 ==> r == Ok::<VLEIndex, Error>(
                VLEIndex {
                    advise: le16(data@, 0),
                    cluster_offset: le16(data@, 2),
                    block_addr: le32(data@, 4),
                },
            ),
    {
        if data.len() < 8 {
            return Err(not_supported("VLE index too short"));
        }
        Ok(
            VLEIndex {
                advise: read_u16(data, 0),
                cluster_offset: read_u16(data, 2),
                block_addr: read_u32(data, 4),
            },
        )
    }
}

} // verus!
