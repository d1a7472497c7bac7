//! Where paths lead.

use vstd::prelude::*;

#[allow(unused_imports)]
use crate::dirent::{entry_count, entry_named, nth_id_name, nth_name};
#[allow(unused_imports)]
use crate::error::ErrorView;
#[allow(unused_imports)]
use crate::filesystem::{units, EroFSCore};
#[allow(unused_imports)]
use crate::laws::directories::{
    block_at, byte_ordered, byte_ordered_blocks_are_sorted, count, lemma_only_name,
    looking_up_finds_each_name, only_name, plain_name, sound_at, sound_block, sound_directory,
};
#[allow(unused_imports)]
use crate::laws::disk::{inode_says_what_it_holds, u64_at};
#[allow(unused_imports)]
use crate::lookup::{
    child, dir_at, dir_block, file_at, named_in_block, path_leads_through_its_directory,
    path_target, regular_file, resolve, search, search_finds_every_entry,
    search_finds_nothing_else, searchable_block, Reads,
};
#[allow(unused_imports)]
use crate::path::{
    components_of, first_part, joined, joined_path_has_one_part_more, last_slash,
    lemma_last_slash, normal_parts, path_text, root_directory_has_one_part, route, segment_part,
    segment_parts, PartView,
};
#[allow(unused_imports)]
use crate::reader::FileView;
#[allow(unused_imports)]
use crate::sync::filesystem::opened;
#[allow(unused_imports)]
use crate::text::decimal;
#[allow(unused_imports)]
use crate::types::Inode;
#[allow(unused_imports)]
use vstd::utf8::{decode_utf8_encode_utf8, encode_utf8, valid_utf8};

verus! {

/// Whether bytes are the name of a file: they are not empty, have no `/` and are neither
/// `.` nor `..`.
pub open spec fn is_name(name: Seq<u8>) -> bool {
    &&& name.len() > 0
    &&& forall|i: int| 0 <= i < name.len() ==> name[i] != 0x2f
    &&& !(name.len() == 1 && name[0] == 0x2e)
    &&& !(name.len() == 2 && name[0] == 0x2e && name[1] == 0x2e)
}

/// The name of a file in a directory is written behind the path of the directory, with one
/// `/` between them.
pub proof fn a_name_is_written_behind_its_directory(dir: Seq<u8>, name: Seq<u8>)
    requires
        is_name(name),
    ensures
        dir.len() == 0 ==> joined(dir, name) == name,
        dir.len() > 0 && dir[dir.len() - 1] == 0x2f ==> joined(dir, name) == dir + name,
        dir.len() > 0 && dir[dir.len() - 1] != 0x2f ==> joined(dir, name) == dir + seq![0x2fu8]
            + name,
{
    assert(joined(dir, name) =~= if dir.len() == 0 {
        name
    } else if dir.last() == 0x2f {
        dir + name
    } else {
        dir + seq![0x2fu8] + name
    });
}

proof fn lemma_simple(name: Seq<u8>)
    requires
        is_name(name),
    ensures
        crate::path::simple_name(name),
{
}

/// A part is written as its name, or as `/`, `.` or `..`.
pub proof fn parts_are_written_as_their_bytes(name: Seq<u8>)
    ensures
        PartView::Normal(name).bytes() == name,
        PartView::RootDir.bytes() == seq![0x2fu8],
        PartView::CurDir.bytes() == seq![0x2eu8],
        PartView::ParentDir.bytes() == seq![0x2eu8, 0x2eu8],
{
}

/// A name leads one part further, `.` leads nowhere else, and `..` leads back to before the
/// last name, or nowhere else where there is none. `/` leads to the root directory.
pub proof fn a_path_leads_part_by_part(dir: Seq<u8>, name: Seq<u8>)
    ensures
        is_name(name) ==> route(joined(dir, name)) == route(dir).push(PartView::Normal(name)),
        name == seq![0x2eu8] ==> route(joined(dir, name)) == route(dir),
        name == seq![0x2eu8, 0x2eu8] ==> route(joined(dir, name)) == (if route(dir).len() > 0
            && route(dir)[route(dir).len() - 1] is Normal {
            route(dir).drop_last()
        } else {
            route(dir)
        }),
        route(seq![0x2fu8]) == seq![PartView::RootDir],
        route(seq![]) == Seq::<PartView>::empty(),
{
    root_directory_has_one_part();
    assert(components_of(seq![]) =~= seq![]);
    if is_name(name) {
        lemma_simple(name);
        joined_path_has_one_part_more(dir, name);
    }
    if name == seq![0x2eu8] || name == seq![0x2eu8, 0x2eu8] {
        lemma_dots(dir, name);
    }
}

proof fn lemma_dots(dir: Seq<u8>, name: Seq<u8>)
    requires
        name == seq![0x2eu8] || name == seq![0x2eu8, 0x2eu8],
    ensures
        name.len() == 1 ==> route(joined(dir, name)) == route(dir),
        name.len() == 2 ==> route(joined(dir, name)) == normal_parts(
            components_of(dir).push(PartView::ParentDir),
        ),
        name.len() == 2 ==> components_of(dir).push(PartView::ParentDir).drop_last()
            == components_of(dir),
{
    let path = joined(dir, name);
    lemma_last_slash(path);
    let j = last_slash(path);
    let up = components_of(dir).push(PartView::ParentDir);
    assert(up.drop_last() =~= components_of(dir));
    assert(segment_part(name) =~= if name.len() == 1 {
        seq![]
    } else {
        seq![PartView::ParentDir]
    });
    if dir.len() == 0 {
        assert(path == name);
        assert(j < 0);
        assert(segment_parts(dir) =~= seq![]);
        assert(components_of(dir) =~= seq![]);
        if name.len() == 1 {
            assert(components_of(path) =~= seq![PartView::CurDir]);
            assert(components_of(path).drop_last() =~= seq![]);
            assert(normal_parts(seq![]) =~= seq![]);
        } else {
            assert(components_of(path) =~= up);
        }
    } else {
        let start = path.len() - name.len();
        assert(path[start - 1] == 47);
        assert forall|i: int| start <= i < path.len() implies path[i] != 47 by {
            assert(path[i] == name[i - start]);
        }
        assert(j == start - 1);
        assert(path.skip(j + 1) =~= name);
        if dir.last() == 47 {
            assert(path.take(j) =~= dir.take(dir.len() - 1));
            assert(dir.skip(dir.len() as int) =~= seq![]);
            assert(segment_parts(dir) =~= segment_parts(dir.take(dir.len() - 1)));
        } else {
            assert(path.take(j) =~= dir);
        }
        assert(path[0] == dir[0]);
        assert(first_part(path) =~= first_part(dir));
        assert(components_of(path) =~= if name.len() == 1 {
            components_of(dir)
        } else {
            up
        });
    }
}

/// The path `/`, and the empty path, lead to the inode of the root node.
pub proof fn the_root_path_leads_to_the_root_node(core: EroFSCore, r: Reads)
    ensures
        (r.inode)(core.super_block.root_nid as u64) matches Ok(root) ==> path_target(
            core,
            r,
            seq![0x2fu8],
        ) == Ok::<Option<Inode>, ErrorView>(Some(root)) && path_target(core, r, seq![]) == Ok::<
            Option<Inode>,
            ErrorView,
        >(Some(root)),
        (r.inode)(core.super_block.root_nid as u64) matches Err(e) ==> path_target(
            core,
            r,
            seq![0x2fu8],
        ) == Err::<Option<Inode>, ErrorView>(e),
{
    a_path_leads_part_by_part(seq![], seq![0x2fu8]);
    reveal_with_fuel(resolve, 2);
}

/// Whether a directory can be searched: its blocks are ones of a directory, and the names
/// of each behind the first two are in the order of their bytes.
pub open spec fn ordered_directory(r: Reads, bs: usize, dir: Inode) -> bool {
    &&& sound_directory(r, bs, dir)
    &&& forall|i: int|
        0 <= i && i * bs < dir.data_size_spec() ==> byte_ordered(
            #[trigger] block_at(r, bs, dir, i),
        )
}

/// Whether no entry of the `i`-th block of a directory has the name.
pub open spec fn unnamed_at(r: Reads, bs: usize, dir: Inode, i: int, name: Seq<u8>) -> bool {
    forall|k: int|
        0 <= k < count(block_at(r, bs, dir, i)) ==> #[trigger] plain_name(
            block_at(r, bs, dir, i),
            k,
        ) != name
}

proof fn lemma_block_index(r: Reads, bs: usize, dir: Inode, i: int)
    requires
        ordered_directory(r, bs, dir),
        0 <= i,
    ensures
        i * bs < dir.data_size_spec() <==> i < units(dir.data_size_spec() as int, bs as int),
        i * bs < dir.data_size_spec() ==> {
            &&& dir_block(r, bs, dir, i) == Ok::<Seq<u8>, ErrorView>(block_at(r, bs, dir, i))
            &&& searchable_block(r, bs, dir, i)
            &&& sound_block(block_at(r, bs, dir, i))
            &&& byte_ordered(block_at(r, bs, dir, i))
        },
{
    let size = dir.data_size_spec() as int;
    let b = bs as int;
    if i < units(size, b) {
        crate::filesystem::lemma_block_start(size, b, i);
    } else {
        crate::filesystem::lemma_units_bound(size, b);
        crate::reader::lemma_block_index(size, b, size - 1);
        let last = units(size, b) - 1;
        crate::filesystem::lemma_block_rest(size, b, last);
        assert(i * b >= size) by (nonlinear_arith)
            requires
                i >= last + 1,
                size - last * b <= b,
                b >= 1,
        ;
    }
    if i * bs < size {
        assert(sound_at(r, bs, dir, i));
        let block = block_at(r, bs, dir, i);
        assert(sound_block(block) && byte_ordered(block));
        byte_ordered_blocks_are_sorted(block);
    }
}

proof fn lemma_unnamed(r: Reads, bs: usize, dir: Inode, i: int, name: Seq<u8>)
    requires
        ordered_directory(r, bs, dir),
        0 <= i,
        i * bs < dir.data_size_spec(),
        unnamed_at(r, bs, dir, i, name),
    ensures
        !named_in_block(r, bs, dir, i, name),
{
    lemma_block_index(r, bs, dir, i);
    let block = block_at(r, bs, dir, i);
    byte_ordered_blocks_are_sorted(block);
    assert forall|k: int| (#[trigger] entry_named(name, block, k)) is None by {
        if 0 <= k < count(block) {
            assert(nth_id_name(block, k, entry_count(block)) is Ok);
            assert(plain_name(block, k) != name);
        }
    }
}

/// A name of a directory leads to the node of its entry, the `k`-th of the `j`-th block,
/// where no other entry of that block and no block before it has the name. Names are
/// searched for in directories only: the mode tells.
pub proof fn a_name_leads_to_its_node(r: Reads, bs: usize, dir: Inode, j: int, k: int)
    requires
        ordered_directory(r, bs, dir),
        0 <= j,
        j * bs < dir.data_size_spec(),
        0 <= k < count(block_at(r, bs, dir, j)),
        only_name(block_at(r, bs, dir, j), k),
        forall|i: int|
            0 <= i < j ==> #[trigger] unnamed_at(
                r,
                bs,
                dir,
                i,
                plain_name(block_at(r, bs, dir, j), k),
            ),
    ensures
        ({
            let block = block_at(r, bs, dir, j);
            &&& dir.mode_spec() / 0x1000 == 4 ==> child(r, bs, dir, plain_name(block, k)) == Ok::<
                Option<u64>,
                ErrorView,
            >(Some(u64_at(block, 12 * k) as u64))
            &&& dir.mode_spec() / 0x1000 != 4 ==> child(r, bs, dir, plain_name(block, k)) == Ok::<
                Option<u64>,
                ErrorView,
            >(None)
        }),
{
    inode_says_what_it_holds(dir);
    lemma_block_index(r, bs, dir, j);
    let block = block_at(r, bs, dir, j);
    let name = plain_name(block, k);
    byte_ordered_blocks_are_sorted(block);
    lemma_only_name(block, k);
    assert(nth_id_name(block, k, entry_count(block)) is Ok);
    assert forall|m: int|
        #![trigger searchable_block(r, bs, dir, m)]
        #![trigger named_in_block(r, bs, dir, m, name)]
        0 <= m < j implies searchable_block(r, bs, dir, m) && !named_in_block(
        r,
        bs,
        dir,
        m,
        name,
    ) by {
        assert(m * bs <= j * bs) by (nonlinear_arith)
            requires
                m <= j,
                0 <= bs,
        ;
        assert(unnamed_at(r, bs, dir, m, name));
        lemma_block_index(r, bs, dir, m);
        lemma_unnamed(r, bs, dir, m, name);
    }
    assert(nth_name(dir_block(r, bs, dir, j)->Ok_0, k) == name);
    search_finds_every_entry(r, bs, dir, j, k);
}

/// A name that no entry of a directory has leads nowhere.
pub proof fn no_other_name_leads_anywhere(r: Reads, bs: usize, dir: Inode, name: Seq<u8>)
    requires
        ordered_directory(r, bs, dir),
        forall|i: int|
            0 <= i && i * bs < dir.data_size_spec() ==> #[trigger] unnamed_at(r, bs, dir, i, name),
    ensures
        child(r, bs, dir, name) == Ok::<Option<u64>, ErrorView>(None),
{
    assert forall|m: int|
        #![trigger searchable_block(r, bs, dir, m)]
        #![trigger named_in_block(r, bs, dir, m, name)]
        0 <= m < units(dir.data_size_spec() as int, bs as int) implies searchable_block(
        r,
        bs,
        dir,
        m,
    ) && !named_in_block(r, bs, dir, m, name) by {
        lemma_block_index(r, bs, dir, m);
        assert(unnamed_at(r, bs, dir, m, name));
        lemma_unnamed(r, bs, dir, m, name);
    }
    search_finds_nothing_else(r, bs, dir, name);
}

/// Whether the `i`-th block of a directory can be read and searched and does not have the
/// name.
pub open spec fn passed_by(r: Reads, bs: usize, dir: Inode, i: int, name: Seq<u8>) -> bool {
    &&& (r.block)(dir, (i * bs) as usize) is Ok
    &&& sound_block(block_at(r, bs, dir, i))
    &&& byte_ordered(block_at(r, bs, dir, i))
    &&& unnamed_at(r, bs, dir, i, name)
}

/// Looking up a name that no block before the `j`-th has gives the error of that block, where
/// it cannot be read.
pub proof fn a_search_ends_at_what_cannot_be_read(
    r: Reads,
    bs: usize,
    dir: Inode,
    name: Seq<u8>,
    j: int,
)
    requires
        1 < bs,
        dir.mode_spec() / 0x1000 == 4,
        0 <= j,
        j * bs < dir.data_size_spec(),
        forall|i: int| 0 <= i < j ==> #[trigger] passed_by(r, bs, dir, i, name),
        (r.block)(dir, (j * bs) as usize) is Err,
    ensures
        child(r, bs, dir, name) == Err::<Option<u64>, ErrorView>(
            (r.block)(dir, (j * bs) as usize)->Err_0,
        ),
{
    inode_says_what_it_holds(dir);
    lemma_search(r, bs, dir, name, 0, j);
}

proof fn lemma_search(r: Reads, bs: usize, dir: Inode, name: Seq<u8>, i: int, j: int)
    requires
        1 < bs,
        0 <= i <= j,
        j * bs < dir.data_size_spec(),
        forall|m: int| 0 <= m < j ==> #[trigger] passed_by(r, bs, dir, m, name),
        (r.block)(dir, (j * bs) as usize) is Err,
    ensures
        search(r, bs, dir, name, i) == Err::<Option<u64>, ErrorView>(
            (r.block)(dir, (j * bs) as usize)->Err_0,
        ),
    decreases j - i,
{
    let size = dir.data_size_spec() as int;
    let b = bs as int;
    assert(0 <= i * b <= j * b) by (nonlinear_arith)
        requires
            0 <= i <= j,
            1 < b,
    ;
    vstd::arithmetic::div_mod::lemma_fundamental_div_mod_converse(i * b, b, i, 0);
    crate::reader::lemma_block_index(size, b, i * b);
    if i < j {
        assert(passed_by(r, bs, dir, i, name));
        let block = block_at(r, bs, dir, i);
        assert forall|k: int| 0 <= k < count(block) implies #[trigger] plain_name(block, k)
            != name by {}
        looking_up_finds_each_name(block, name);
        lemma_search(r, bs, dir, name, i + 1, j);
    }
}

/// A path leads to an inode through its directory: the path of a name in a directory leads
/// to the inode of the node that the name leads to there.
pub proof fn a_path_leads_through_its_directory(
    core: EroFSCore,
    r: Reads,
    dir_path: Seq<u8>,
    name: Seq<u8>,
)
    requires
        is_name(name),
    ensures
        path_target(core, r, joined(dir_path, name)) == (match path_target(core, r, dir_path) {
            Err(e) => Err(e),
            Ok(None) => Ok(None),
            Ok(Some(dir)) => match child(r, core.block_size, dir, name) {
                Err(e) => Err(e),
                Ok(None) => Ok(None),
                Ok(Some(nid)) => match (r.inode)(nid) {
                    Err(e) => Err(e),
                    Ok(inode) => Ok(Some(inode)),
                },
            },
        }),
{
    a_path_leads_part_by_part(dir_path, name);
    path_leads_through_its_directory(
        r,
        core.block_size,
        route(dir_path),
        PartView::Normal(name),
        0,
        core.super_block.root_nid as u64,
    );
}

/// The parts of a path are followed one by one: no part leads to the node itself, a root
/// directory part leads nowhere else, and any other part is looked up where the parts before
/// it lead.
pub proof fn parts_are_followed_one_by_one(
    r: Reads,
    bs: usize,
    parts: Seq<PartView>,
    part: PartView,
    nid: u64,
)
    ensures
        resolve(r, bs, seq![], 0, nid) == (match (r.inode)(nid) {
            Err(e) => Err(e),
            Ok(inode) => Ok(Some(inode)),
        }),
        part is RootDir ==> resolve(r, bs, parts.push(part), 0, nid) == resolve(
            r,
            bs,
            parts,
            0,
            nid,
        ),
        !(part is RootDir) ==> resolve(r, bs, parts.push(part), 0, nid) == (match resolve(
            r,
            bs,
            parts,
            0,
            nid,
        ) {
            Err(e) => Err(e),
            Ok(None) => Ok(None),
            Ok(Some(dir)) => match child(r, bs, dir, part.bytes()) {
                Err(e) => Err(e),
                Ok(None) => Ok(None),
                Ok(Some(found)) => match (r.inode)(found) {
                    Err(e) => Err(e),
                    Ok(inode) => Ok(Some(inode)),
                },
            },
        }),
{
    if part is RootDir {
        lemma_root_part(r, bs, parts, part, 0, nid);
    } else {
        path_leads_through_its_directory(r, bs, parts, part, 0, nid);
    }
}

proof fn lemma_root_part(
    r: Reads,
    bs: usize,
    parts: Seq<PartView>,
    part: PartView,
    k: int,
    nid: u64,
)
    requires
        0 <= k <= parts.len(),
        part is RootDir,
    ensures
        resolve(r, bs, parts.push(part), k, nid) == resolve(r, bs, parts, k, nid),
    decreases parts.len() - k,
{
    let longer = parts.push(part);
    if k < parts.len() {
        assert(longer[k] == parts[k]);
        if parts[k] is RootDir {
            lemma_root_part(r, bs, parts, part, k + 1, nid);
        } else if let Ok(dir) = (r.inode)(nid) {
            if let Ok(Some(found)) = child(r, bs, dir, parts[k].bytes()) {
                lemma_root_part(r, bs, parts, part, k + 1, found);
            }
        }
    } else {
        assert(longer[k] == part);
        assert(resolve(r, bs, longer, k + 1, nid) == resolve(r, bs, parts, k, nid));
    }
}

/// The path of a file of a directory leads to the inode of its node, where the path of the
/// directory leads to the directory.
pub proof fn a_file_is_found_by_its_path(
    core: EroFSCore,
    r: Reads,
    dir_path: Seq<u8>,
    dir: Inode,
    j: int,
    k: int,
)
    requires
        path_target(core, r, dir_path) == Ok::<Option<Inode>, ErrorView>(Some(dir)),
        dir.mode_spec() / 0x1000 == 4,
        ordered_directory(r, core.block_size, dir),
        0 <= j,
        j * core.block_size < dir.data_size_spec(),
        0 <= k < count(block_at(r, core.block_size, dir, j)),
        only_name(block_at(r, core.block_size, dir, j), k),
        is_name(plain_name(block_at(r, core.block_size, dir, j), k)),
        forall|i: int|
            0 <= i < j ==> #[trigger] unnamed_at(
                r,
                core.block_size,
                dir,
                i,
                plain_name(block_at(r, core.block_size, dir, j), k),
            ),
        (r.inode)(u64_at(block_at(r, core.block_size, dir, j), 12 * k) as u64) is Ok,
    ensures
        ({
            let block = block_at(r, core.block_size, dir, j);
            path_target(core, r, joined(dir_path, plain_name(block, k))) == Ok::<
                Option<Inode>,
                ErrorView,
            >(Some((r.inode)(u64_at(block, 12 * k) as u64)->Ok_0))
        }),
{
    a_name_leads_to_its_node(r, core.block_size, dir, j, k);
    a_path_leads_through_its_directory(
        core,
        r,
        dir_path,
        plain_name(block_at(r, core.block_size, dir, j), k),
    );
}

/// Only a regular file is opened, and from its start; only a directory is listed. The mode
/// tells. Where nothing was found, the error names the path.
pub proof fn only_what_fits_is_opened(found: Option<Inode>, path: Seq<u8>)
    ensures
        found is None ==> {
            &&& file_at(found, path) == Err::<Inode, ErrorView>(
                ErrorView::PathNotFound(path_text(path)),
            )
            &&& dir_at(found, path) == Err::<Inode, ErrorView>(
                ErrorView::PathNotFound(path_text(path)),
            )
        },
        found is Some && found->0.mode_spec() / 0x1000 == 8 ==> {
            &&& file_at(found, path) == Ok::<Inode, ErrorView>(found->0)
            &&& opened(file_at(found, path)) == Ok::<FileView, ErrorView>(
                FileView { inode: found->0, offset: 0, buf: None },
            )
        },
        found is Some && found->0.mode_spec() / 0x1000 != 8 ==> file_at(found, path) == Err::<
            Inode,
            ErrorView,
        >(
            ErrorView::NotAFile(
                "inode "@ + decimal(found->0.nid as nat) + " is not a regular file"@,
            ),
        ),
        found is Some ==> regular_file(found->0) == file_at(found, path),
        found is Some && found->0.mode_spec() / 0x1000 == 4 ==> dir_at(found, path) == Ok::<
            Inode,
            ErrorView,
        >(found->0),
        found is Some && found->0.mode_spec() / 0x1000 != 4 ==> dir_at(found, path) == Err::<
            Inode,
            ErrorView,
        >(ErrorView::NotADirectory(path_text(path))),
        valid_utf8(path) ==> encode_utf8(path_text(path)) == path,
{
    if let Some(inode) = found {
        inode_says_what_it_holds(inode);
    }
    if valid_utf8(path) {
        decode_utf8_encode_utf8(path);
    }
}

} // verus!
