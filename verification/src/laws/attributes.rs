//! Where extended attributes lie, and what reading and scanning for them gives.

use vstd::prelude::*;

#[allow(unused_imports)]
use crate::error::ErrorView;
#[allow(unused_imports)]
use crate::laws::disk::{numbers_have_their_low_bytes_first, u16_at, u32_at, u64_at};
#[allow(unused_imports)]
use crate::laws::writing::{
    bytes_are_written_in_hexadecimal, is_hexadecimal, is_without_nuls_at_its_end,
    nuls_at_the_end_are_dropped,
};
#[allow(unused_imports)]
use crate::scan::{scan_finds_the_first, scan_next, scan_start, ScanView, XattrInode};
#[allow(unused_imports)]
use crate::text::{hex32, lossy_text};
#[allow(unused_imports)]
use crate::xattr::{
    aligned, body_header_at, entry_at, filter_admits, inode_header_at, missing, prefix_of,
    value_text, xattr_next, xattr_start, XattrView,
};
#[allow(unused_imports)]
use vstd::arithmetic::power2::pow2;
#[allow(unused_imports)]
use vstd::utf8::{decode_utf8, decode_utf8_encode_utf8, encode_utf8, valid_utf8};

verus! {

/// Whether a filter lets a hash pass: it is all ones, or the bit that the hash chooses with
/// its last five bits is one.
pub open spec fn lets_pass(filter: int, hash: int) -> bool {
    filter == 0xffff_ffff || filter / pow2((hash % 32) as nat) as int % 2 == 1
}

/// A bloom filter lets a hash pass by the bit that its last five bits choose.
pub proof fn a_filter_has_a_bit_for_each_hash(filter: u32, hash: u32)
    ensures
        filter_admits(filter, hash) <==> lets_pass(filter as int, hash as int),
{
    vstd::bits::lemma_u32_shr_is_div(filter, hash % 32);
    vstd::arithmetic::power2::lemma_pow2_pos((hash % 32) as nat);
}

/// Where the attributes of the inode at `at` start: behind 32 bytes where its first byte is
/// even, and behind 64 where it is odd.
pub open spec fn attributes_from(data: Seq<u8>, at: int) -> int {
    if data[at] % 2 == 0 {
        at + 32
    } else {
        at + 64
    }
}

/// Whether the inode at `at` lies within the image, has attributes, their header lies within
/// the image, and its filter lets the hash pass.
pub open spec fn passes(data: Seq<u8>, at: int, hash: int) -> bool {
    &&& at + 4 <= data.len()
    &&& u16_at(data, at + 2) != 0
    &&& attributes_from(data, at) + 12 <= data.len()
    &&& lets_pass(u32_at(data, attributes_from(data, at)), hash)
}

proof fn lemma_passes(v: ScanView, j: int, hash: u32)
    ensures
        passes(v.data, v.meta_base + 32 * j, hash as int) <==> v.has_inode(j) && v.admits(j, hash),
        v.has_inode(j) <==> v.meta_base + 32 * j + 4 <= v.data.len(),
        v.inode(j).xattr_count == u16_at(v.data, v.meta_base + 32 * j + 2),
        v.inode(j).name_filter == u32_at(
            v.data,
            attributes_from(v.data, v.meta_base + 32 * j),
        ),
        v.xattrs_at(j) == attributes_from(v.data, v.meta_base + 32 * j),
{
    let at = v.meta_base + 32 * j;
    numbers_have_their_low_bytes_first(v.data, at);
    numbers_have_their_low_bytes_first(v.data, at + 2);
    numbers_have_their_low_bytes_first(v.data, attributes_from(v.data, at));
    a_filter_has_a_bit_for_each_hash(
        body_header_at(v.data, v.xattrs_at(j)).name_filter,
        hash,
    );
}

/// A scan finds the first inode from the next one on that has attributes within the image
/// whose filter lets the hash pass, and tells where its attributes start. It finds none
/// only where there is none.
pub proof fn a_scan_finds_the_first_that_passes(v: ScanView, hash: u32)
    requires
        v.wf(),
    ensures
        match v.first_match(hash) {
            Some(k) => {
                let at = v.meta_base + 32 * k;
                &&& v.nid <= k < v.inos
                &&& passes(v.data, at, hash as int)
                &&& forall|j: int|
                    v.nid <= j < k ==> !#[trigger] passes(
                        v.data,
                        v.meta_base + 32 * j,
                        hash as int,
                    )
                &&& v.inode(k).nid == k
                &&& v.inode(k).xattr_count == u16_at(v.data, at + 2)
                &&& v.inode(k).name_filter == u32_at(v.data, attributes_from(v.data, at))
                &&& v.inode(k).xattr_start == attributes_from(v.data, at)
            },
            None => forall|j: int|
                v.nid <= j < v.inos ==> !#[trigger] passes(
                    v.data,
                    v.meta_base + 32 * j,
                    hash as int,
                ),
        },
{
    scan_finds_the_first(v, hash);
    assert forall|j: int| #[trigger]
        passes(v.data, v.meta_base + 32 * j, hash as int) == (v.has_inode(j) && v.admits(
            j,
            hash,
        )) by {
        lemma_passes(v, j, hash);
    }
    if let Some(k) = v.first_match(hash) {
        lemma_passes(v, k, hash);
    }
}

/// A scan starts at the first inode: the inodes lie from the start of the block that bytes 40
/// to 43 of the super block give on, and bytes 16 to 23 tell how many there are. The super
/// block lies behind the first 1024 bytes, and a block has two to the power of its byte 12
/// bytes.
pub proof fn a_scan_starts_at_the_first_inode(data: Seq<u8>)
    ensures
        data.len() < 1024 ==> scan_start(data) == Err::<ScanView, ErrorView>(
            ErrorView::InvalidSuperblock("failed to read super block"@),
        ),
        1024 <= data.len() < 1152 ==> scan_start(data) == Err::<ScanView, ErrorView>(
            ErrorView::UnexpectedEof,
        ),
        data.len() >= 1152 && u32_at(data, 1024) != 0xe0f5_e1e2 ==> scan_start(data) == Err::<
            ScanView,
            ErrorView,
        >(ErrorView::InvalidSuperblock("bad magic: "@ + hex32(u32_at(data, 1024) as u32))),
        data.len() >= 1152 && u32_at(data, 1024) == 0xe0f5_e1e2 && data[1036] >= 64 ==> scan_start(
            data,
        ) == Err::<ScanView, ErrorView>(ErrorView::InvalidSuperblock("invalid block size"@)),
        data.len() >= 1152 && u32_at(data, 1024) == 0xe0f5_e1e2 && data[1036] < 64 ==> scan_start(
            data,
        ) == Ok::<ScanView, ErrorView>(
            ScanView {
                data,
                meta_base: u32_at(data, 1064) * pow2(data[1036] as nat),
                inos: u64_at(data, 1040),
                nid: 0,
            },
        ),
{
    if data.len() >= 1152 {
        let sb = data.skip(1024);
        numbers_have_their_low_bytes_first(sb, 0);
        numbers_have_their_low_bytes_first(sb, 16);
        numbers_have_their_low_bytes_first(sb, 40);
        if data[1036] < 64 {
            let bits = data[1036] as u64;
            assert(1u64 << sb[12] == 1u64 << bits);
            vstd::bits::lemma_u64_pow2_no_overflow(bits as nat);
            vstd::bits::lemma_u64_shl_is_mul(1, bits);
        }
    }
}

/// What a scan hands out when it is asked for the next inode again and again.
pub open spec fn scan_handed_out(v: ScanView, hash: u32, times: nat) -> Seq<XattrInode>
    decreases times,
{
    if times == 0 {
        seq![]
    } else {
        match scan_next(v, hash).1 {
            Some(inode) => seq![inode] + scan_handed_out(
                scan_next(v, hash).0,
                hash,
                (times - 1) as nat,
            ),
            None => seq![],
        }
    }
}

/// Whether the inodes hold the node `k`.
pub open spec fn has_node(inodes: Seq<XattrInode>, k: int) -> bool {
    exists|x: int| 0 <= x < inodes.len() && (#[trigger] inodes[x]).nid == k
}

/// A scan that is asked often enough hands out all inodes that pass, each once and in order,
/// and no others.
pub proof fn a_scan_hands_out_all_that_pass(v: ScanView, hash: u32, times: nat)
    requires
        v.wf(),
        times >= v.inos - v.nid,
    ensures
        forall|k: int|
            v.nid <= k < v.inos && passes(v.data, v.meta_base + 32 * k, hash as int) ==> has_node(
                scan_handed_out(v, hash, times),
                k,
            ),
        forall|x: int|
            0 <= x < scan_handed_out(v, hash, times).len() ==> {
                let inode = #[trigger] scan_handed_out(v, hash, times)[x];
                let at = v.meta_base + 32 * inode.nid;
                &&& v.nid <= inode.nid < v.inos
                &&& passes(v.data, at, hash as int)
                &&& inode.xattr_count == u16_at(v.data, at + 2)
                &&& inode.name_filter == u32_at(v.data, attributes_from(v.data, at))
                &&& inode.xattr_start == attributes_from(v.data, at)
            },
        forall|x: int, y: int|
            0 <= x < y < scan_handed_out(v, hash, times).len() ==> (#[trigger] scan_handed_out(
                v,
                hash,
                times,
            )[x]).nid < (#[trigger] scan_handed_out(v, hash, times)[y]).nid,
    decreases times,
{
    a_scan_finds_the_first_that_passes(v, hash);
    let all = scan_handed_out(v, hash, times);
    if times > 0 {
        if let Some(first) = v.first_match(hash) {
            let after = scan_next(v, hash).0;
            let rest = scan_handed_out(after, hash, (times - 1) as nat);
            a_scan_hands_out_all_that_pass(after, hash, (times - 1) as nat);
            assert(all == seq![v.inode(first)] + rest);
            assert forall|k: int|
                v.nid <= k < v.inos && passes(
                    v.data,
                    v.meta_base + 32 * k,
                    hash as int,
                ) implies has_node(all, k) by {
                if k == first {
                    assert(all[0].nid == k);
                } else {
                    assert(k > first);
                    assert(has_node(rest, k));
                    let x = choose|x: int| 0 <= x < rest.len() && (#[trigger] rest[x]).nid == k;
                    assert(all[x + 1].nid == k);
                }
            }
            assert forall|x: int| 0 < x < all.len() implies #[trigger] all[x] == rest[x - 1] by {}
        }
    }
}

/// A prefix number stands for its prefix. Bit 7 is left out.
pub proof fn prefixes_have_their_numbers(index: u8)
    ensures
        index % 128 == 0 ==> prefix_of(index) == Seq::<char>::empty(),
        index % 128 == 1 ==> prefix_of(index) == seq!['u', 's', 'e', 'r', '.'],
        index % 128 == 2 ==> prefix_of(index) == seq!['t', 'r', 'u', 's', 't', 'e', 'd', '.'],
        index % 128 == 3 ==> prefix_of(index) == seq!['s', 'e', 'c', 'u', 'r', 'i', 't', 'y', '.'],
        index % 128 == 4 ==> prefix_of(index) == seq!['s', 'y', 's', 't', 'e', 'm', '.'],
        index % 128 == 5 ==> prefix_of(index) == "system.posix_acl_access"@,
        index % 128 == 6 ==> prefix_of(index) == "system.posix_acl_default"@,
        index % 128 > 6 ==> prefix_of(index) == seq!['u', 'n', 'k', 'n', 'o', 'w', 'n', '.'],
{
    reveal_strlit("");
    reveal_strlit("user.");
    reveal_strlit("trusted.");
    reveal_strlit("security.");
    reveal_strlit("system.");
    reveal_strlit("unknown.");
    assert(""@ =~= Seq::<char>::empty());
    assert("user."@ =~= seq!['u', 's', 'e', 'r', '.']);
    assert("trusted."@ =~= seq!['t', 'r', 'u', 's', 't', 'e', 'd', '.']);
    assert("security."@ =~= seq!['s', 'e', 'c', 'u', 'r', 'i', 't', 'y', '.']);
    assert("system."@ =~= seq!['s', 'y', 's', 't', 'e', 'm', '.']);
    assert("unknown."@ =~= seq!['u', 'n', 'k', 'n', 'o', 'w', 'n', '.']);
}

/// The start of an inode, the header of attributes and the start of an attribute lie at their
/// bytes. What does not lie within the bytes that there are cannot be read.
pub proof fn attribute_headers_lie_at_their_bytes(s: Seq<u8>, o: int, size: int)
    ensures
        inode_header_at(s, o).format == u16_at(s, o),
        inode_header_at(s, o).xattr_count == u16_at(s, o + 2),
        body_header_at(s, o).name_filter == u32_at(s, o),
        body_header_at(s, o).shared_count == s[o + 4],
        entry_at(s, o).name_len == s[o],
        entry_at(s, o).name_index == s[o + 1],
        entry_at(s, o).value_len == u16_at(s, o + 2),
        o > s.len() ==> missing(s, o, size) == Some(
            ErrorView::OutOfBounds("offset behind the end of the image"@),
        ),
        o <= s.len() < o + size ==> missing(s, o, size) == Some(ErrorView::UnexpectedEof),
        o <= s.len() && o + size <= s.len() ==> missing(s, o, size) is None,
{
    numbers_have_their_low_bytes_first(s, o);
    numbers_have_their_low_bytes_first(s, o + 2);
}

/// Rounding up to a multiple of 4 gives the smallest one that is not less.
pub proof fn rounding_up_gives_the_next_multiple(n: int)
    ensures
        aligned(n) % 4 == 0,
        n <= aligned(n) < n + 4,
{
}

/// The attributes of an inode start behind their header of 12 bytes and the shared ones, four
/// bytes each, which byte 4 of the header counts. The others are left.
pub proof fn attributes_start_behind_the_shared_ones(data: Seq<u8>, start: int, count: int)
    requires
        0 <= start,
        0 <= count,
        data.len() <= usize::MAX,
    ensures
        start > data.len() ==> xattr_start(data, start, count) == Err::<XattrView, ErrorView>(
            ErrorView::OutOfBounds("offset behind the end of the image"@),
        ),
        start <= data.len() < start + 12 ==> xattr_start(data, start, count) == Err::<
            XattrView,
            ErrorView,
        >(ErrorView::UnexpectedEof),
        start + 12 <= data.len() && data[start + 4] > count ==> xattr_start(data, start, count)
            == Err::<XattrView, ErrorView>(
            ErrorView::CorruptedData("corrupted inode: shared_count > xattr_count"@),
        ),
        start + 12 <= data.len() && data[start + 4] <= count && start + 12 + 4 * data[start + 4]
            <= usize::MAX ==> xattr_start(data, start, count) == Ok::<XattrView, ErrorView>(
            XattrView {
                data,
                cursor: start + 12 + 4 * data[start + 4],
                remaining: count - data[start + 4],
            },
        ),
{
}

/// An attribute is read from its bytes: the length of the name, the number of the prefix, two
/// bytes with the length of the value, the name and the value. The next one starts at the
/// next multiple of 4.
pub proof fn attributes_lie_one_behind_the_other(v: XattrView)
    requires
        0 <= v.cursor,
        0 <= v.remaining,
        v.data.len() <= usize::MAX - 3,
    ensures
        ({
            let c = v.cursor;
            let name = c + 4;
            let value = name + v.data[c];
            let end = value + u16_at(v.data, c + 2);
            let (after, x) = xattr_next(v);
            &&& after.data == v.data
            &&& v.remaining == 0 ==> after == v && x == Ok::<
                Option<(Seq<char>, Seq<char>)>,
                ErrorView,
            >(None)
            &&& v.remaining > 0 && c > v.data.len() ==> after == v && x == Err::<
                Option<(Seq<char>, Seq<char>)>,
                ErrorView,
            >(ErrorView::OutOfBounds("offset behind the end of the image"@))
            &&& v.remaining > 0 && c <= v.data.len() < c + 4 ==> after == v && x == Err::<
                Option<(Seq<char>, Seq<char>)>,
                ErrorView,
            >(ErrorView::UnexpectedEof)
            &&& v.remaining > 0 && c + 4 <= v.data.len() && end > v.data.len() ==> {
                &&& after.cursor == c + 4
                &&& after.remaining == v.remaining
                &&& x == Err::<Option<(Seq<char>, Seq<char>)>, ErrorView>(
                    ErrorView::CorruptedData(
                        "xattr entry extends past image boundary - truncated or corrupt"@,
                    ),
                )
            }
            &&& v.remaining > 0 && c + 4 <= v.data.len() && end <= v.data.len() ==> {
                &&& after.remaining == v.remaining - 1
                &&& after.cursor % 4 == 0
                &&& end <= after.cursor < end + 4
                &&& x == Ok::<Option<(Seq<char>, Seq<char>)>, ErrorView>(
                    Some(
                        (
                            prefix_of(v.data[c + 1]) + lossy_text(v.data.subrange(name, value)),
                            value_text(v.data.subrange(value, end)),
                        ),
                    ),
                )
            }
        }),
{
    numbers_have_their_low_bytes_first(v.data, v.cursor + 2);
}

/// A value that is UTF-8 is written as its text without the NULs at its end, and any other in
/// hexadecimal. A name that is UTF-8 is written as its text.
pub proof fn values_are_written_as_text_or_in_hexadecimal(value: Seq<u8>)
    ensures
        valid_utf8(value) ==> {
            &&& is_without_nuls_at_its_end(value_text(value), decode_utf8(value))
            &&& encode_utf8(decode_utf8(value)) == value
            &&& encode_utf8(lossy_text(value)) == value
        },
        !valid_utf8(value) ==> is_hexadecimal(value_text(value), value),
{
    if valid_utf8(value) {
        decode_utf8_encode_utf8(value);
        nuls_at_the_end_are_dropped(decode_utf8(value));
    } else {
        bytes_are_written_in_hexadecimal(value);
    }
}

} // verus!
