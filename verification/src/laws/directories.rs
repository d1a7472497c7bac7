//! What a directory holds, and what listing it and looking names up in it give.

use vstd::prelude::*;

#[allow(unused_imports)]
use crate::cursor::{
    cursor_start, dir_listing, dir_next, directory_hands_out_its_listing,
    listing_starts_with_all_entries, readable_dir, CursorView,
};
#[allow(unused_imports)]
use crate::dirent::{
    block_hands_out_its_listing, block_lookup, block_lookup_finds_every_entry,
    block_lookup_finds_nothing_else, block_next, block_start, entry_count, entry_named, listing,
    lookup, lookup_finds_every_entry, lookup_finds_nothing_else, name_text, nth_dirent, nth_entry,
    nth_id_name, nth_name, nth_name_text, only_entry_named, readable_entry, sorted_block,
    stored_name, text_names_read_as_written, BlockView, DirEntryView,
};
#[allow(unused_imports)]
use crate::error::ErrorView;
#[allow(unused_imports)]
use crate::laws::disk::{
    file_types_have_their_numbers, numbers_have_their_low_bytes_first, type_number, u16_at, u64_at,
};
#[allow(unused_imports)]
use crate::laws::writing::{is_without_nuls_at_its_end, nuls_at_the_end_are_dropped};
#[allow(unused_imports)]
use crate::lookup::Reads;
#[allow(unused_imports)]
use crate::names::{lemma_until_nul, name_less, until_nul};
#[allow(unused_imports)]
use crate::text::{lossy_text, lossy_utf8};
#[allow(unused_imports)]
use crate::types::{dirent_at, Dirent, Inode};
#[allow(unused_imports)]
use vstd::utf8::{decode_utf8, encode_utf8, valid_utf8};

verus! {

/// Whether `a` comes before `b` as bytes: they are the same up to some place, and there
/// `a` ends and `b` does not, or both go on and the byte of `a` is the smaller number.
pub open spec fn bytes_before(a: Seq<u8>, b: Seq<u8>) -> bool {
    exists|i: int| #[trigger] differ_at(a, b, i)
}

/// Whether `a` and `b` are the same before `i`, and `a` comes before `b` there.
pub open spec fn differ_at(a: Seq<u8>, b: Seq<u8>, i: int) -> bool {
    &&& 0 <= i <= a.len()
    &&& i <= b.len()
    &&& forall|j: int| 0 <= j < i ==> a[j] == b[j]
    &&& (i == a.len() && a.len() < b.len()) || (i < a.len() && i < b.len() && (a[i] as int) < (
    b[i] as int))
}

/// Names are in the order of their bytes.
pub proof fn names_are_ordered_by_their_bytes(a: Seq<u8>, b: Seq<u8>)
    ensures
        name_less(a, b) <==> bytes_before(a, b),
    decreases a.len(),
{
    if a.len() > 0 && b.len() > 0 && a[0] == b[0] {
        let x = a.drop_first();
        let y = b.drop_first();
        names_are_ordered_by_their_bytes(x, y);
        if bytes_before(a, b) {
            let i = choose|i: int| #[trigger] differ_at(a, b, i);
            assert forall|j: int| 0 <= j < i - 1 implies x[j] == y[j] by {
                assert(a[j + 1] == b[j + 1]);
            }
            assert(differ_at(x, y, i - 1));
        }
        if bytes_before(x, y) {
            let i = choose|i: int| #[trigger] differ_at(x, y, i);
            assert forall|j: int| 0 <= j < i + 1 implies a[j] == b[j] by {
                if j > 0 {
                    assert(x[j - 1] == y[j - 1]);
                }
            }
            assert(differ_at(a, b, i + 1));
        }
    } else {
        assert(name_less(a, b) ==> differ_at(a, b, 0));
        if bytes_before(a, b) {
            let i = choose|i: int| #[trigger] differ_at(a, b, i);
            if i > 0 {
                assert(a[0] == b[0]);
            }
        }
    }
}

/// A name ends before its first NUL.
pub proof fn names_end_before_their_first_nul(s: Seq<u8>, n: int)
    requires
        0 <= n <= s.len(),
        forall|j: int| 0 <= j < n ==> s[j] != 0,
        n == s.len() || s[n] == 0,
    ensures
        until_nul(s) == s.subrange(0, n),
{
    lemma_until_nul(s, n);
    assert(s.take(n) =~= s.subrange(0, n));
}

/// The text of a stored name that is UTF-8 encodes the bytes before its padding with NULs.
pub proof fn names_are_read_without_their_padding(s: Seq<u8>, n: int)
    requires
        valid_utf8(s),
        0 <= n <= s.len(),
        forall|j: int| 0 <= j < n ==> s[j] != 0,
        forall|j: int| n <= j < s.len() ==> s[j] == 0,
    ensures
        encode_utf8(name_text(s)) == s.subrange(0, n),
{
    names_end_before_their_first_nul(s, n);
    text_names_read_as_written(s);
}

/// Of the NULs in a stored name only those at its end are padding.
pub proof fn only_the_nuls_at_the_end_are_padding(s: Seq<u8>)
    ensures
        valid_utf8(s) ==> is_without_nuls_at_its_end(name_text(s), decode_utf8(s)),
        !valid_utf8(s) ==> is_without_nuls_at_its_end(name_text(s), lossy_utf8(s)),
{
    nuls_at_the_end_are_dropped(lossy_text(s));
}

/// How many entries a block has: the first name starts behind them, and each takes 12
/// bytes.
pub open spec fn count(data: Seq<u8>) -> int {
    u16_at(data, 8) / 12
}

/// Where the name of the `k`-th entry starts: its bytes 8 and 9 tell.
pub open spec fn name_from(data: Seq<u8>, k: int) -> int {
    u16_at(data, 12 * k + 8)
}

/// Where the name of the `k`-th entry ends: where the next one starts, or at the end of
/// the block.
pub open spec fn name_to(data: Seq<u8>, k: int) -> int {
    if k + 1 < count(data) {
        name_from(data, k + 1)
    } else {
        data.len() as int
    }
}

/// The bytes of the name of the `k`-th entry, with their padding.
pub open spec fn name_bytes(data: Seq<u8>, k: int) -> Seq<u8> {
    data.subrange(name_from(data, k), name_to(data, k))
}

/// Whether the name of the `k`-th entry is `.` or `..`.
pub open spec fn is_dots(data: Seq<u8>, k: int) -> bool {
    name_text(name_bytes(data, k)) == seq!['.'] || name_text(name_bytes(data, k)) == seq!['.', '.']
}

/// Whether the `k`-th entry lies within the block and tells a file type that there is.
pub open spec fn sound_entry(data: Seq<u8>, k: int) -> bool {
    &&& 12 * k + 12 <= data.len()
    &&& name_from(data, k) <= name_to(data, k) <= data.len()
    &&& is_dots(data, k) || data[12 * k + 10] < 8
}

/// Whether a block is one of a directory: all of its entries lie within it.
pub open spec fn sound_block(data: Seq<u8>) -> bool {
    &&& 12 <= data.len() <= usize::MAX
    &&& forall|k: int| 0 <= k < count(data) ==> #[trigger] sound_entry(data, k)
}

/// Whether `e` is the `k`-th entry of a block of the directory with the path `root`: its
/// first eight bytes are the node, byte 10 is the file type.
pub open spec fn is_entry(e: DirEntryView, root: Seq<u8>, data: Seq<u8>, k: int) -> bool {
    &&& e.dir == root
    &&& e.nid == u64_at(data, 12 * k)
    &&& type_number(e.file_type) == data[12 * k + 10]
    &&& e.file_name == name_text(name_bytes(data, k))
}

/// The places of the entries of a block from `k` on that are not `.` or `..`, in order.
pub open spec fn places(data: Seq<u8>, k: int) -> Seq<int>
    decreases count(data) - k,
{
    if k >= count(data) {
        seq![]
    } else if is_dots(data, k) {
        places(data, k + 1)
    } else {
        seq![k] + places(data, k + 1)
    }
}

/// Whether `all` are the entries of a block but `.` and `..`, each once and in order.
pub open spec fn is_listing(all: Seq<DirEntryView>, root: Seq<u8>, data: Seq<u8>) -> bool {
    &&& all.len() == places(data, 0).len()
    &&& forall|x: int|
        0 <= x < all.len() ==> is_entry(#[trigger] all[x], root, data, places(data, 0)[x])
}

/// The entries of a block that are listed are all but `.` and `..`, each once and in order.
pub proof fn places_are_all_but_the_dots(data: Seq<u8>, from: int)
    requires
        0 <= from,
    ensures
        forall|x: int|
            0 <= x < places(data, from).len() ==> from <= (#[trigger] places(data, from)[x])
                < count(data) && !is_dots(data, places(data, from)[x]),
        forall|x: int, y: int|
            0 <= x < y < places(data, from).len() ==> places(data, from)[x] < places(
                data,
                from,
            )[y],
        forall|k: int|
            from <= k < count(data) && !is_dots(data, k) ==> #[trigger] places(data, from).contains(
                k,
            ),
    decreases count(data) - from,
{
    if from < count(data) {
        places_are_all_but_the_dots(data, from + 1);
        let rest = places(data, from + 1);
        let all = places(data, from);
        if !is_dots(data, from) {
            assert forall|k: int| from <= k < count(data) && !is_dots(data, k) implies #[trigger]
                all.contains(k) by {
                if k == from {
                    assert(all[0] == k);
                } else {
                    assert(rest.contains(k));
                    let x = choose|x: int| 0 <= x < rest.len() && rest[x] == k;
                    assert(all[x + 1] == k);
                }
            }
            assert forall|x: int, y: int| 0 <= x < y < all.len() implies all[x] < all[y] by {
                assert(all[y] == rest[y - 1]);
                if x > 0 {
                    assert(all[x] == rest[x - 1]);
                }
            }
        }
    }
}

/// What the functions of a block see of an entry is what its bytes hold.
proof fn lemma_entry(data: Seq<u8>, k: int)
    requires
        12 <= data.len(),
        0 <= k < count(data),
        12 * k + 12 <= data.len(),
        k + 1 < count(data) ==> 12 * k + 24 <= data.len(),
        name_from(data, k) <= name_to(data, k) <= data.len(),
    ensures
        entry_count(data) == count(data),
        nth_dirent(data, 0) is Ok,
        nth_dirent(data, k) is Ok,
        nth_dirent(data, k)->Ok_0.nid == u64_at(data, 12 * k),
        nth_dirent(data, k)->Ok_0.file_type == data[12 * k + 10],
        stored_name(data, k) == name_bytes(data, k),
        nth_id_name(data, k, entry_count(data)) == Ok::<(u64, Seq<u8>), ErrorView>(
            (u64_at(data, 12 * k) as u64, until_nul(name_bytes(data, k))),
        ),
{
    numbers_have_their_low_bytes_first(data, 8);
    numbers_have_their_low_bytes_first(data, 12 * k);
    numbers_have_their_low_bytes_first(data, 12 * k + 8);
    numbers_have_their_low_bytes_first(data, 12 * k + 20);
    assert(12 * (k + 1) + 8 == 12 * k + 20);
}

proof fn lemma_sound_entry(data: Seq<u8>, k: int)
    requires
        sound_block(data),
        0 <= k < count(data),
    ensures
        12 * k + 12 <= data.len(),
        k + 1 < count(data) ==> 12 * k + 24 <= data.len(),
        name_from(data, k) <= name_to(data, k) <= data.len(),
        entry_count(data) == count(data),
        nth_dirent(data, 0) is Ok,
        readable_entry(data, k),
        crate::dirent::is_dot_name(nth_name_text(data, k)) == is_dots(data, k),
        forall|root: Seq<u8>|
            !is_dots(data, k) ==> is_entry(#[trigger] nth_entry(root, data, k), root, data, k),
{
    assert(sound_entry(data, k));
    if k + 1 < count(data) {
        assert(sound_entry(data, k + 1));
    }
    lemma_entry(data, k);
    file_types_have_their_numbers(data[12 * k + 10]);
}

proof fn lemma_listing(root: Seq<u8>, data: Seq<u8>, from: int)
    requires
        sound_block(data),
        0 <= from,
    ensures
        listing(root, data, from).len() == places(data, from).len(),
        forall|x: int|
            0 <= x < places(data, from).len() ==> is_entry(
                #[trigger] listing(root, data, from)[x],
                root,
                data,
                places(data, from)[x],
            ),
    decreases count(data) - from,
{
    numbers_have_their_low_bytes_first(data, 8);
    if from < count(data) {
        lemma_sound_entry(data, from);
        lemma_listing(root, data, from + 1);
        let rest = listing(root, data, from + 1);
        let all = listing(root, data, from);
        if !is_dots(data, from) {
            assert(all == seq![nth_entry(root, data, from)] + rest);
            assert forall|x: int| 0 <= x < places(data, from).len() implies is_entry(
                #[trigger] all[x],
                root,
                data,
                places(data, from)[x],
            ) by {
                if x > 0 {
                    assert(all[x] == rest[x - 1]);
                    assert(places(data, from)[x] == places(data, from + 1)[x - 1]);
                }
            }
        }
    } else {
        assert(entry_count(data) == count(data));
    }
}

/// The listing of a block has all of its entries but `.` and `..`.
pub proof fn listing_has_the_entries(root: Seq<u8>, data: Seq<u8>)
    requires
        sound_block(data),
    ensures
        is_listing(listing(root, data, 0), root, data),
{
    lemma_listing(root, data, 0);
}

/// What a block hands out when it is asked for the next entry again and again.
pub open spec fn handed_out(b: BlockView, times: nat) -> Seq<DirEntryView>
    decreases times,
{
    if times == 0 {
        seq![]
    } else {
        match block_next(b).1 {
            Ok(Some(e)) => seq![e] + handed_out(block_next(b).0, (times - 1) as nat),
            _ => seq![],
        }
    }
}

/// What a block gives when it is asked for the next entry once more.
pub open spec fn asked_again(b: BlockView, times: nat) -> Result<Option<DirEntryView>, ErrorView>
    decreases times,
{
    if times == 0 {
        block_next(b).1
    } else {
        asked_again(block_next(b).0, (times - 1) as nat)
    }
}

proof fn lemma_handed_out(b: BlockView, times: nat)
    requires
        b.intact(),
        times >= b.remaining().len(),
    ensures
        handed_out(b, times) == b.remaining(),
        asked_again(b, times) == Ok::<Option<DirEntryView>, ErrorView>(None),
    decreases times,
{
    block_hands_out_its_listing(b);
    let (after, x) = block_next(b);
    if times > 0 {
        if let Ok(Some(e)) = x {
            assert(b.remaining() == seq![e] + after.remaining());
            lemma_handed_out(after, (times - 1) as nat);
        } else {
            assert(b.remaining() =~= seq![]);
            lemma_handed_out(after, (times - 1) as nat);
        }
    } else {
        assert(b.remaining() =~= seq![]);
    }
}

/// A block of a directory hands out all of its entries but `.` and `..`, each once and in
/// order, and then `None`. What it has is told by its bytes alone.
pub proof fn a_block_hands_out_all_its_entries(root: Seq<u8>, data: Seq<u8>, times: nat)
    requires
        sound_block(data),
        times >= count(data),
    ensures
        block_start(root, data) is Ok,
        is_listing(handed_out(block_start(root, data)->Ok_0, times), root, data),
        asked_again(block_start(root, data)->Ok_0, times) == Ok::<
            Option<DirEntryView>,
            ErrorView,
        >(None),
{
    numbers_have_their_low_bytes_first(data, 8);
    lemma_started_block(root, data);
    let b = block_start(root, data)->Ok_0;
    listing_has_the_entries(root, data);
    lemma_places_count(data, 0);
    lemma_handed_out(b, times);
}

proof fn lemma_places_count(data: Seq<u8>, from: int)
    requires
        0 <= from <= count(data) || count(data) < from,
    ensures
        from <= count(data) ==> places(data, from).len() <= count(data) - from,
        from > count(data) ==> places(data, from).len() == 0,
    decreases count(data) - from,
{
    if from < count(data) {
        lemma_places_count(data, from + 1);
    }
}

proof fn lemma_started_block(root: Seq<u8>, data: Seq<u8>)
    requires
        sound_block(data),
    ensures
        block_start(root, data) is Ok,
        block_start(root, data)->Ok_0.intact(),
        block_start(root, data)->Ok_0.remaining() == listing(root, data, 0),
{
    numbers_have_their_low_bytes_first(data, 8);
    let b = block_start(root, data)->Ok_0;
    assert forall|k: int| 0 <= k < b.n implies #[trigger] readable_entry(data, k) by {
        lemma_sound_entry(data, k);
    }
}

/// A started block counts the entries that its first name leaves room for, and starts at
/// the first of them.
pub proof fn a_block_counts_its_entries(root: Seq<u8>, data: Seq<u8>)
    ensures
        data.len() >= 12 ==> block_start(root, data) is Ok && ({
            let b = block_start(root, data)->Ok_0;
            &&& b.n == (data[8] + 0x100 * data[9]) / 12
            &&& b.i == 0
            &&& b.data == data
            &&& b.root == root
        }),
        data.len() < 12 ==> block_start(root, data) == Err::<BlockView, ErrorView>(
            ErrorView::UnexpectedEof,
        ),
{
}

/// An entry is read from its 12 bytes: eight for the node, two for the start of its name, and
/// one for the file type. What does not lie within the block cannot be read.
pub proof fn entries_lie_one_behind_the_other(data: Seq<u8>, n: int)
    requires
        0 <= n,
    ensures
        12 * n + 12 <= data.len() ==> (nth_dirent(data, n) matches Ok(d) && {
            &&& d.nid == u64_at(data, 12 * n)
            &&& d.name_off == u16_at(data, 12 * n + 8)
            &&& d.file_type == data[12 * n + 10]
        }),
        12 * n <= data.len() < 12 * n + 12 ==> nth_dirent(data, n) == Err::<Dirent, ErrorView>(
            ErrorView::UnexpectedEof,
        ),
        12 * n > data.len() ==> nth_dirent(data, n) == Err::<Dirent, ErrorView>(
            ErrorView::OutOfBounds("failed to get inode data"@),
        ),
{
    numbers_have_their_low_bytes_first(data, 12 * n);
    numbers_have_their_low_bytes_first(data, 12 * n + 8);
}

/// An entry that is not sound is an error where it comes next, the `k`-th: one behind which
/// no other can be read though there should be one, one whose name does not lie within the
/// block, and one with an unknown file type.
pub proof fn an_entry_that_is_not_sound_is_an_error(root: Seq<u8>, data: Seq<u8>, k: int)
    requires
        12 <= data.len(),
        0 <= k < count(data),
        12 * k + 12 <= data.len(),
    ensures
        ({
            let b = BlockView {
                data,
                root,
                dirent: dirent_at(data, 12 * k),
                i: k,
                n: count(data),
            };
            let (after, x) = block_next(b);
            let named = nth_id_name(data, k, count(data));
            &&& k + 1 < count(data) && 12 * k + 24 > data.len() ==> x == Err::<
                Option<DirEntryView>,
                ErrorView,
            >(ErrorView::UnexpectedEof) && named == Err::<(u64, Seq<u8>), ErrorView>(
                ErrorView::UnexpectedEof,
            )
            &&& (k + 1 < count(data) ==> 12 * k + 24 <= data.len()) && !(name_from(data, k)
                <= name_to(data, k) <= data.len()) ==> x == Err::<Option<DirEntryView>, ErrorView>(
                ErrorView::CorruptedData("invalid directory entry name offset"@),
            ) && named == Err::<(u64, Seq<u8>), ErrorView>(
                ErrorView::CorruptedData("invalid directory entry name offset"@),
            )
            &&& (k + 1 < count(data) ==> 12 * k + 24 <= data.len()) && name_from(data, k)
                <= name_to(data, k) <= data.len() && !is_dots(data, k) && data[12 * k + 10] >= 8
                ==> {
                &&& x == Err::<Option<DirEntryView>, ErrorView>(
                    ErrorView::InvalidFileType(data[12 * k + 10]),
                )
                &&& after.i == k + 1
            }
        }),
{
    numbers_have_their_low_bytes_first(data, 8);
    numbers_have_their_low_bytes_first(data, 12 * k + 8);
    numbers_have_their_low_bytes_first(data, 12 * k + 20);
    assert(12 * (k + 1) + 8 == 12 * k + 20);
    assert(12 * (k + 1) + 12 == 12 * k + 24);
}

/// The name of the `k`-th entry, up to its first NUL.
pub open spec fn plain_name(data: Seq<u8>, k: int) -> Seq<u8> {
    until_nul(name_bytes(data, k))
}

/// Whether the names of a block behind the first two are in the order of their bytes.
pub open spec fn byte_ordered(data: Seq<u8>) -> bool {
    forall|j: int, k: int|
        #![trigger plain_name(data, j), plain_name(data, k)]
        2 <= j < k < count(data) ==> bytes_before(plain_name(data, j), plain_name(data, k))
}

/// Names in the order of their bytes are in the order that looking them up relies on.
pub proof fn byte_ordered_blocks_are_sorted(data: Seq<u8>)
    requires
        sound_block(data),
        byte_ordered(data),
    ensures
        sorted_block(data),
        entry_count(data) == count(data),
        forall|k: int|
            0 <= k < count(data) ==> #[trigger] nth_id_name(data, k, entry_count(data)) == Ok::<
                (u64, Seq<u8>),
                ErrorView,
            >((u64_at(data, 12 * k) as u64, plain_name(data, k))),
{
    numbers_have_their_low_bytes_first(data, 8);
    assert(nth_dirent(data, 0) is Ok);
    assert forall|k: int| 0 <= k < count(data) implies #[trigger] nth_id_name(
        data,
        k,
        entry_count(data),
    ) == Ok::<(u64, Seq<u8>), ErrorView>((u64_at(data, 12 * k) as u64, plain_name(data, k))) by {
        lemma_sound_entry(data, k);
        lemma_entry(data, k);
    }
    assert forall|j: int, k: int|
        #![trigger nth_name(data, j), nth_name(data, k)]
        2 <= j < k < entry_count(data) implies name_less(nth_name(data, j), nth_name(data, k)) by {
        assert(nth_id_name(data, j, entry_count(data)) is Ok);
        assert(nth_id_name(data, k, entry_count(data)) is Ok);
        assert(bytes_before(plain_name(data, j), plain_name(data, k)));
        names_are_ordered_by_their_bytes(plain_name(data, j), plain_name(data, k));
    }
}

/// In a block whose names behind the first two are in the order of their bytes, looking up
/// by bisection finds each of those names, with the node of its entry, and no other.
pub proof fn bisection_finds_each_name(data: Seq<u8>, name: Seq<u8>)
    requires
        sound_block(data),
        byte_ordered(data),
    ensures
        forall|k: int|
            2 <= k < count(data) && #[trigger] plain_name(data, k) == name ==> lookup(name, data)
                == Ok::<Option<u64>, ErrorView>(Some(u64_at(data, 12 * k) as u64)),
        (forall|k: int| 2 <= k < count(data) ==> #[trigger] plain_name(data, k) != name) ==> lookup(
            name,
            data,
        ) == Ok::<Option<u64>, ErrorView>(None),
{
    byte_ordered_blocks_are_sorted(data);
    assert forall|k: int|
        2 <= k < count(data) && #[trigger] plain_name(data, k) == name implies lookup(
        name,
        data,
    ) == Ok::<Option<u64>, ErrorView>(Some(u64_at(data, 12 * k) as u64)) by {
        assert(nth_id_name(data, k, entry_count(data)) is Ok);
        lookup_finds_every_entry(data, k);
    }
    if forall|k: int| 2 <= k < count(data) ==> #[trigger] plain_name(data, k) != name {
        assert forall|k: int| 2 <= k < entry_count(data) implies #[trigger] nth_name(data, k)
            != name by {
            assert(nth_id_name(data, k, entry_count(data)) is Ok);
            assert(plain_name(data, k) != name);
        }
        lookup_finds_nothing_else(data, name);
    }
}

/// Whether no other entry of a block has the name of the `k`-th.
pub open spec fn only_name(data: Seq<u8>, k: int) -> bool {
    forall|j: int|
        0 <= j < count(data) && j != k ==> #[trigger] plain_name(data, j) != plain_name(data, k)
}

/// In a block whose names behind the first two are in the order of their bytes, looking up
/// among all entries finds each name that only one entry has, with the node of that entry,
/// and no name that none has.
pub proof fn looking_up_finds_each_name(data: Seq<u8>, name: Seq<u8>)
    requires
        sound_block(data),
        byte_ordered(data),
    ensures
        forall|k: int|
            0 <= k < count(data) && #[trigger] plain_name(data, k) == name && only_name(data, k)
                ==> block_lookup(name, data) == Ok::<Option<u64>, ErrorView>(
                Some(u64_at(data, 12 * k) as u64),
            ),
        (forall|k: int| 0 <= k < count(data) ==> #[trigger] plain_name(data, k) != name)
            ==> block_lookup(name, data) == Ok::<Option<u64>, ErrorView>(None),
{
    byte_ordered_blocks_are_sorted(data);
    assert forall|k: int|
        0 <= k < count(data) && #[trigger] plain_name(data, k) == name && only_name(
            data,
            k,
        ) implies block_lookup(name, data) == Ok::<Option<u64>, ErrorView>(
        Some(u64_at(data, 12 * k) as u64),
    ) by {
        lemma_only_name(data, k);
        assert(nth_id_name(data, k, entry_count(data)) is Ok);
        block_lookup_finds_every_entry(data, k);
    }
    if forall|k: int| 0 <= k < count(data) ==> #[trigger] plain_name(data, k) != name {
        assert forall|k: int| #[trigger] entry_named(name, data, k) is None by {
            if 0 <= k < count(data) {
                assert(nth_id_name(data, k, entry_count(data)) is Ok);
                assert(plain_name(data, k) != name);
            }
        }
        block_lookup_finds_nothing_else(data, name);
    }
}

pub(crate) proof fn lemma_only_name(data: Seq<u8>, k: int)
    requires
        sound_block(data),
        byte_ordered(data),
        0 <= k < count(data),
        only_name(data, k),
    ensures
        nth_name(data, k) == plain_name(data, k),
        only_entry_named(data, k),
{
    byte_ordered_blocks_are_sorted(data);
    assert(nth_id_name(data, k, entry_count(data)) is Ok);
    assert forall|j: int| j != k implies #[trigger] entry_named(nth_name(data, k), data, j) is None by {
        if 0 <= j < count(data) {
            assert(nth_id_name(data, j, entry_count(data)) is Ok);
            assert(plain_name(data, j) != plain_name(data, k));
        }
    }
}

/// Whether the blocks of a file can be read: the one at every multiple of the block size
/// within the file has the bytes that are left, up to the block size.
pub open spec fn sound_blocks(r: Reads, bs: usize, inode: Inode) -> bool {
    forall|i: int|
        0 <= i && i * bs < inode.data_size_spec() ==> #[trigger] sound_at(r, bs, inode, i)
}

/// Whether the `i`-th block of a file can be read and has the bytes that it should have.
pub open spec fn sound_at(r: Reads, bs: usize, inode: Inode, i: int) -> bool {
    let rest = inode.data_size_spec() - i * bs;
    &&& (r.block)(inode, (i * bs) as usize) is Ok
    &&& (r.block)(inode, (i * bs) as usize)->Ok_0.len() == if rest < bs {
        rest
    } else {
        bs as int
    }
}

/// The `i`-th block of a file.
pub open spec fn block_at(r: Reads, bs: usize, inode: Inode, i: int) -> Seq<u8> {
    (r.block)(inode, (i * bs) as usize)->Ok_0
}

/// Whether an inode has the data of a directory: it has a block, and all of its blocks are
/// ones of a directory.
pub open spec fn sound_directory(r: Reads, bs: usize, inode: Inode) -> bool {
    &&& 1 < bs
    &&& 0 < inode.data_size_spec()
    &&& sound_blocks(r, bs, inode)
    &&& forall|i: int|
        0 <= i && i * bs < inode.data_size_spec() ==> sound_block(
            #[trigger] block_at(r, bs, inode, i),
        )
}

/// Whether `all` are the entries of a directory from the `i`-th block on but `.` and `..`,
/// block after block.
pub open spec fn is_directory_listing(
    all: Seq<DirEntryView>,
    r: Reads,
    bs: usize,
    root: Seq<u8>,
    inode: Inode,
    i: int,
) -> bool
    decreases inode.data_size_spec() - i,
{
    if i < 0 || i >= inode.data_size_spec() || i * bs >= inode.data_size_spec() {
        all.len() == 0
    } else {
        let n = places(block_at(r, bs, inode, i), 0).len() as int;
        &&& all.len() >= n
        &&& is_listing(all.subrange(0, n), root, block_at(r, bs, inode, i))
        &&& is_directory_listing(
            all.subrange(n, all.len() as int),
            r,
            bs,
            root,
            inode,
            i + 1,
        )
    }
}

pub(crate) proof fn lemma_directory(r: Reads, bs: usize, root: Seq<u8>, inode: Inode, i: int)
    requires
        sound_directory(r, bs, inode),
        0 <= i,
        i * bs < inode.data_size_spec() || i > 0,
        i > 0 ==> (i - 1) * bs < inode.data_size_spec(),
    ensures
        readable_dir(
            r,
            root,
            inode,
            if i * bs < inode.data_size_spec() {
                i * bs
            } else {
                inode.data_size_spec() as int
            },
        ),
        is_directory_listing(
            dir_listing(
                r,
                root,
                inode,
                if i * bs < inode.data_size_spec() {
                    i * bs
                } else {
                    inode.data_size_spec() as int
                },
            ),
            r,
            bs,
            root,
            inode,
            i,
        ),
    decreases inode.data_size_spec() - i,
{
    let size = inode.data_size_spec() as int;
    if i * bs < size {
        assert(i <= i * bs) by (nonlinear_arith)
            requires
                0 <= i,
                1 < bs,
        ;
        assert((i + 1) * bs == i * bs + bs) by (nonlinear_arith);
        assert((i + 1 - 1) * bs == i * bs);
        assert(sound_at(r, bs, inode, i));
        let block = block_at(r, bs, inode, i);
        assert(sound_block(block));
        lemma_started_block(root, block);
        lemma_directory(r, bs, root, inode, i + 1);
        listing_has_the_entries(root, block);
        let here = listing(root, block, 0);
        let next = if (i + 1) * bs < size {
            (i + 1) * bs
        } else {
            size
        };
        assert(i * bs + block.len() == next);
        let rest = dir_listing(r, root, inode, next);
        let all = dir_listing(r, root, inode, i * bs);
        assert(all == here + rest);
        assert(all.subrange(0, here.len() as int) =~= here);
        assert(all.subrange(here.len() as int, all.len() as int) =~= rest);
    }
}

/// The listing of a directory has the entries of all of its blocks but `.` and `..`, each
/// once and in order.
pub proof fn a_directory_listing_has_the_entries_of_all_blocks(
    r: Reads,
    bs: usize,
    root: Seq<u8>,
    inode: Inode,
)
    requires
        sound_directory(r, bs, inode),
    ensures
        is_directory_listing(dir_listing(r, root, inode, 0), r, bs, root, inode, 0),
{
    assert(0 * bs == 0) by (nonlinear_arith);
    lemma_directory(r, bs, root, inode, 0);
}

/// What a directory hands out when it is asked for the next entry again and again.
pub open spec fn dir_handed_out(r: Reads, v: CursorView, times: nat) -> Seq<DirEntryView>
    decreases times,
{
    if times == 0 {
        seq![]
    } else {
        match dir_next(r, v).1 {
            Ok(Some(e)) => seq![e] + dir_handed_out(r, dir_next(r, v).0, (times - 1) as nat),
            _ => seq![],
        }
    }
}

proof fn lemma_dir_handed_out(r: Reads, v: CursorView, times: nat)
    requires
        v.wf(),
        v.intact(r),
        times >= v.remaining(r).len(),
    ensures
        dir_handed_out(r, v, times) == v.remaining(r),
    decreases times,
{
    directory_hands_out_its_listing(r, v);
    let (after, x) = dir_next(r, v);
    if times > 0 {
        if let Ok(Some(e)) = x {
            assert(v.remaining(r) == seq![e] + after.remaining(r));
            lemma_dir_handed_out(r, after, (times - 1) as nat);
        } else {
            assert(v.remaining(r) =~= seq![]);
        }
    } else {
        assert(v.remaining(r) =~= seq![]);
    }
}

/// A directory of which a block cannot be read gives that error where the block comes next.
pub proof fn a_block_that_cannot_be_read_is_an_error(r: Reads, v: CursorView)
    requires
        v.offset + v.block.data.len() < v.inode.data_size_spec(),
        block_next(v.block).1 == Ok::<Option<DirEntryView>, ErrorView>(None),
    ensures
        (r.block)(v.inode, (v.offset + v.block.data.len()) as usize) matches Err(e) ==> dir_next(
            r,
            v,
        ).1 == Err::<Option<DirEntryView>, ErrorView>(e),
        (r.block)(v.inode, (v.offset + v.block.data.len()) as usize) matches Ok(data)
            ==> data.len() < 12 ==> dir_next(r, v).1 == Err::<Option<DirEntryView>, ErrorView>(
            ErrorView::UnexpectedEof,
        ),
{
}

/// Listing a directory hands out the entries of all of its blocks but `.` and `..`, each
/// once and in order, when it is asked often enough.
pub proof fn a_directory_hands_out_all_its_entries(
    r: Reads,
    bs: usize,
    root: Seq<u8>,
    inode: Inode,
    times: nat,
)
    requires
        sound_directory(r, bs, inode),
        times >= dir_listing(r, root, inode, 0).len(),
    ensures
        cursor_start(root, inode, block_at(r, bs, inode, 0)) is Ok,
        is_directory_listing(
            dir_handed_out(
                r,
                cursor_start(root, inode, block_at(r, bs, inode, 0))->Ok_0,
                times,
            ),
            r,
            bs,
            root,
            inode,
            0,
        ),
{
    assert(0 * bs == 0) by (nonlinear_arith);
    lemma_directory(r, bs, root, inode, 0);
    listing_starts_with_all_entries(r, root, inode);
    lemma_dir_handed_out(r, cursor_start(root, inode, block_at(r, bs, inode, 0))->Ok_0, times);
}

} // verus!
