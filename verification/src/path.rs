//! Paths within an image: sequences of bytes whose parts `/` separates.

use typed_path::{UnixComponent, UnixPath};
use vstd::prelude::*;

#[allow(unused_imports)]
use vstd::utf8::{decode_utf8, valid_utf8};

verus! {

/// A part of a path.
#[derive(Debug, Clone)]
pub enum PathPart {
    /// The `/` that an absolute path starts with.
    RootDir,
    /// `.`
    CurDir,
    /// `..`
    ParentDir,
    /// A name.
    Normal(Vec<u8>),
}

/// A [`PathPart`] with its name as a sequence of bytes.
pub enum PartView {
    RootDir,
    CurDir,
    ParentDir,
    Normal(Seq<u8>),
}

impl View for PathPart {
    type V = PartView;

    open spec fn view(&self) -> PartView {
        match *self {
            PathPart::RootDir => PartView::RootDir,
            PathPart::CurDir => PartView::CurDir,
            PathPart::ParentDir => PartView::ParentDir,
            PathPart::Normal(name) => PartView::Normal(name@),
        }
    }
}

impl PartView {
    /// The bytes of the part.
    pub open spec fn bytes(self) -> Seq<u8> {
        match self {
            PartView::RootDir => seq![47u8],
            PartView::CurDir => seq![46u8],
            PartView::ParentDir => seq![46u8, 46u8],
            PartView::Normal(name) => name,
        }
    }
}

/// The parts with their names as sequences of bytes.
pub open spec fn part_views(parts: Seq<PathPart>) -> Seq<PartView> {
    parts.map_values(|p: PathPart| p@)
}

impl PathPart {
    /// The bytes of the part.
    pub fn to_bytes(&self) -> (v: Vec<u8>)
        ensures
            v@ == self@.bytes(),
    {
        match self {
            PathPart::RootDir => {
                let v: Vec<u8> = vec![47];
                assert(v@ =~= self@.bytes());
                v
            },
            PathPart::CurDir => {
                let v: Vec<u8> = vec![46];
                assert(v@ =~= self@.bytes());
                v
            },
            PathPart::ParentDir => {
                let v: Vec<u8> = vec![46, 46];
                assert(v@ =~= self@.bytes());
                v
            },
            PathPart::Normal(name) => vstd::slice::slice_to_vec(name.as_slice()),
        }
    }

    /// Whether this is the root directory.
    pub fn is_root(&self) -> (b: bool)
        ensures
            b == (self@ is RootDir),
    {
        match self {
            PathPart::RootDir => true,
            _ => false,
        }
    }
}

/// `dir` with `name` behind it: an absolute name replaces `dir`, any other is
/// appended, after a `/` where `dir` is not empty and does not end in one.
pub open spec fn joined(dir: Seq<u8>, name: Seq<u8>) -> Seq<u8> {
    if name.len() == 0 {
        dir
    } else if name[0] == 47 {
        name
    } else if dir.len() == 0 || dir.last() == 47 {
        dir + name
    } else {
        dir.push(47) + name
    }
}

/// `typed_path::UnixPath::join`: the path of `name` in the directory `dir`.
#[verifier::external_body]
pub(crate) fn join(dir: &[u8], name: &[u8]) -> (r: Vec<u8>)
    ensures
        r@ == joined(dir@, name@),
{
    UnixPath::new(dir).join(UnixPath::new(name)).into_vec()
}

/// Where the last `/` of a path is, or -1 where it has none.
pub open spec fn last_slash(path: Seq<u8>) -> int
    decreases path.len(),
{
    if path.len() == 0 {
        -1
    } else if path.last() == 47 {
        path.len() - 1
    } else {
        last_slash(path.drop_last())
    }
}

/// The last `/` of a path is within it, and no `/` follows it.
pub proof fn lemma_last_slash(path: Seq<u8>)
    ensures
        -1 <= last_slash(path) < path.len(),
        last_slash(path) >= 0 ==> path[last_slash(path)] == 47,
        forall|i: int| last_slash(path) < i < path.len() ==> path[i] != 47,
    decreases path.len(),
{
    if path.len() > 0 && path.last() != 47 {
        lemma_last_slash(path.drop_last());
        assert forall|i: int| last_slash(path) < i < path.len() implies path[i] != 47 by {
            if i < path.len() - 1 {
                assert(path.drop_last()[i] == path[i]);
            }
        }
    }
}

/// The part that what stands between two `/` is. Nothing, and `.`, is no part.
pub open spec fn segment_part(segment: Seq<u8>) -> Seq<PartView> {
    if segment.len() == 0 || segment == seq![46u8] {
        seq![]
    } else if segment == seq![46u8, 46u8] {
        seq![PartView::ParentDir]
    } else {
        seq![PartView::Normal(segment)]
    }
}

/// The parts of a path between its `/`.
pub open spec fn segment_parts(path: Seq<u8>) -> Seq<PartView>
    decreases path.len(),
{
    let j = last_slash(path);
    if j < 0 {
        segment_part(path)
    } else {
        proof {
            lemma_last_slash(path);
        }
        segment_parts(path.take(j)) + segment_part(path.skip(j + 1))
    }
}

/// The part that the start of a path is: the root directory, or a `.` that the
/// path starts with.
pub open spec fn first_part(path: Seq<u8>) -> Seq<PartView> {
    if path.len() > 0 && path[0] == 47 {
        seq![PartView::RootDir]
    } else if path.len() > 0 && path[0] == 46 && (path.len() == 1 || path[1] == 47) {
        seq![PartView::CurDir]
    } else {
        seq![]
    }
}

/// The parts of a path, in order. `/` that follow each other count as one, and a `.`
/// is a part only where the path starts with it.
pub open spec fn components_of(path: Seq<u8>) -> Seq<PartView> {
    first_part(path) + segment_parts(path)
}

/// The parts without `.` and `..`: a `..` takes the name before it away, where there
/// is one.
pub open spec fn normal_parts(parts: Seq<PartView>) -> Seq<PartView>
    decreases parts.len(),
{
    if parts.len() == 0 {
        seq![]
    } else {
        let before = normal_parts(parts.drop_last());
        match parts.last() {
            PartView::CurDir => before,
            PartView::ParentDir => if before.len() > 0 && before.last() is Normal {
                before.drop_last()
            } else {
                before
            },
            part => before.push(part),
        }
    }
}

/// The path that has these parts.
pub open spec fn path_of(parts: Seq<PartView>) -> Seq<u8>
    decreases parts.len(),
{
    if parts.len() == 0 {
        seq![]
    } else {
        joined(path_of(parts.drop_last()), parts.last().bytes())
    }
}

/// `typed_path::UnixPath::normalize`: the path of its parts without `.` and `..`.
#[verifier::external_body]
fn normalize(path: &[u8]) -> (r: Vec<u8>)
    ensures
        r@ == path_of(normal_parts(components_of(path@))),
{
    UnixPath::new(path).normalize().into_vec()
}

/// `typed_path::UnixPath::components`: the parts of the path, in order.
#[verifier::external_body]
fn components(path: &[u8]) -> (parts: Vec<PathPart>)
    ensures
        part_views(parts@) == components_of(path@),
{
    let parts = UnixPath::new(path).components();
    parts.map(|part| match part {
        UnixComponent::RootDir => PathPart::RootDir,
        UnixComponent::CurDir => PathPart::CurDir,
        UnixComponent::ParentDir => PathPart::ParentDir,
        UnixComponent::Normal(name) => PathPart::Normal(name.to_vec()),
    }).collect()
}

/// The parts that a path leads through: those without `.` and `..`.
pub open spec fn route(path: Seq<u8>) -> Seq<PartView> {
    normal_parts(components_of(path))
}

/// Takes a path apart: the parts that it leads through once `.` and `..` are
/// resolved.
pub fn path_parts(path: &[u8]) -> (parts: Vec<PathPart>)
    ensures
        part_views(parts@) == route(path@),
{
    let normal = normalize(path);
    proof {
        lemma_components_are_plain(path@);
        lemma_normal_parts_are_plain(components_of(path@));
        lemma_path_of_parts(route(path@));
    }
    components(normal.as_slice())
}

/// Whether bytes are the name of a file: they are not empty, have no `/` and are
/// neither `.` nor `..`.
pub open spec fn simple_name(name: Seq<u8>) -> bool {
    &&& name.len() > 0
    &&& forall|i: int| 0 <= i < name.len() ==> name[i] != 47
    &&& name != seq![46u8]
    &&& name != seq![46u8, 46u8]
}

/// Whether the names among the parts are names of files, and only the first part is
/// a root directory.
pub open spec fn plain_parts(parts: Seq<PartView>) -> bool {
    &&& forall|i: int|
        0 <= i < parts.len() && #[trigger] parts[i] is Normal ==> simple_name(parts[i]->Normal_0)
    &&& forall|i: int| 0 < i < parts.len() ==> !(#[trigger] parts[i] is RootDir)
}

proof fn lemma_segments_are_plain(path: Seq<u8>)
    ensures
        plain_parts(segment_parts(path)),
        forall|i: int|
            0 <= i < segment_parts(path).len() ==> !(#[trigger] segment_parts(path)[i] is RootDir),
    decreases path.len(),
{
    lemma_last_slash(path);
    let j = last_slash(path);
    if j >= 0 {
        lemma_segments_are_plain(path.take(j));
        assert(segment_parts(path) == segment_parts(path.take(j)) + segment_part(path.skip(j + 1)));
    }
}

proof fn lemma_components_are_plain(path: Seq<u8>)
    ensures
        plain_parts(components_of(path)),
{
    lemma_segments_are_plain(path);
}

proof fn lemma_normal_parts_are_plain(parts: Seq<PartView>)
    requires
        plain_parts(parts),
    ensures
        plain_parts(normal_parts(parts)),
        normal_parts(parts).len() <= parts.len(),
        forall|i: int|
            0 <= i < normal_parts(parts).len() ==> (#[trigger] normal_parts(parts)[i] is RootDir
                || normal_parts(parts)[i] is Normal),
    decreases parts.len(),
{
    if parts.len() > 0 {
        let shorter = parts.drop_last();
        assert forall|i: int| 0 <= i < shorter.len() implies #[trigger] shorter[i] == parts[i] by {}
        lemma_normal_parts_are_plain(shorter);
        if parts.last() is RootDir {
            assert(parts[parts.len() - 1] is RootDir);
            assert(shorter.len() == 0);
        }
        if parts.last() is Normal {
            assert(parts[parts.len() - 1] is Normal);
        }
    }
}

/// The name of a file in a directory adds one part to the path of the directory.
pub proof fn joined_path_has_one_part_more(dir: Seq<u8>, name: Seq<u8>)
    requires
        simple_name(name),
    ensures
        components_of(joined(dir, name)) == components_of(dir).push(PartView::Normal(name)),
        route(joined(dir, name)) == route(dir).push(PartView::Normal(name)),
{
    let path = joined(dir, name);
    lemma_last_slash(path);
    let j = last_slash(path);
    assert(segment_part(name) == seq![PartView::Normal(name)]);
    if dir.len() == 0 {
        assert(path == name);
        assert(j < 0);
        assert(segment_parts(dir) =~= seq![]);
        if name.len() == 1 && name[0] == 46 {
            assert(name =~= seq![46u8]);
        }
        assert(first_part(path) =~= first_part(dir));
    } else {
        let start = path.len() - name.len();
        assert(path[start - 1] == 47);
        assert forall|i: int| start <= i < path.len() implies path[i] != 47 by {
            assert(path[i] == name[i - start]);
        }
        assert(j == start - 1);
        assert(path.skip(j + 1) =~= name);
        if dir.last() == 47 {
            assert(path.take(j) =~= dir.take(dir.len() - 1));
            assert(dir.skip(dir.len() as int) =~= seq![]);
            assert(segment_parts(dir) =~= segment_parts(dir.take(dir.len() - 1)));
        } else {
            assert(path.take(j) =~= dir);
        }
        assert(path[0] == dir[0]);
        assert(first_part(path) =~= first_part(dir));
    }
    assert(components_of(path) =~= components_of(dir).push(PartView::Normal(name)));
    assert(components_of(path).drop_last() =~= components_of(dir));
}

/// Parts that are a root directory and names are the parts of their path.
proof fn lemma_path_of_parts(parts: Seq<PartView>)
    requires
        plain_parts(parts),
        forall|i: int|
            0 <= i < parts.len() ==> (#[trigger] parts[i] is RootDir || parts[i] is Normal),
    ensures
        components_of(path_of(parts)) == parts,
    decreases parts.len(),
{
    if parts.len() > 0 {
        let shorter = parts.drop_last();
        assert forall|i: int| 0 <= i < shorter.len() implies #[trigger] shorter[i] == parts[i] by {}
        lemma_path_of_parts(shorter);
        let last = parts.last();
        assert(parts[parts.len() - 1] == last);
        if last is RootDir {
            assert(parts.len() == 1);
            root_directory_has_one_part();
            assert(parts =~= seq![PartView::RootDir]);
            assert(path_of(parts) =~= seq![47u8]);
        } else {
            joined_path_has_one_part_more(path_of(shorter), last->Normal_0);
            assert(parts =~= shorter.push(last));
        }
    } else {
        assert(components_of(seq![]) =~= parts);
    }
}

/// Only the first part of a path is a root directory.
pub proof fn only_the_first_part_is_the_root(path: Seq<u8>)
    ensures
        forall|i: int| 0 < i < route(path).len() ==> !(#[trigger] route(path)[i] is RootDir),
{
    lemma_components_are_plain(path);
    lemma_normal_parts_are_plain(components_of(path));
}

/// The path `/` has one part, the root directory.
pub proof fn root_directory_has_one_part()
    ensures
        components_of(seq![47u8]) == seq![PartView::RootDir],
        route(seq![47u8]) == seq![PartView::RootDir],
{
    let root = seq![47u8];
    assert(last_slash(root) == 0);
    assert(root.take(0) =~= seq![]);
    assert(root.skip(1) =~= seq![]);
    assert(last_slash(root.take(0)) == -1);
    assert(segment_parts(root.take(0)) =~= seq![]);
    assert(segment_parts(root) =~= seq![]);
    assert(components_of(root) =~= seq![PartView::RootDir]);
    assert(components_of(root).drop_last() =~= seq![]);
    assert(normal_parts(seq![]) =~= seq![]);
    assert(route(root) =~= seq![PartView::RootDir]);
}

/// What a path that is not UTF-8 reads as when every invalid part of it is replaced by
/// the replacement character U+FFFD.
pub uninterp spec fn lossy_path(path: Seq<u8>) -> Seq<char>;

/// A path as text.
pub open spec fn path_text(path: Seq<u8>) -> Seq<char> {
    if valid_utf8(path) {
        decode_utf8(path)
    } else {
        lossy_path(path)
    }
}

/// `typed_path::UnixPath::to_string_lossy`: the text that the path encodes, where it
/// is valid UTF-8, and otherwise its text with the invalid parts replaced.
#[verifier::external_body]
pub(crate) fn to_string_lossy(path: &[u8]) -> (s: String)
    ensures
        s@ == (if valid_utf8(path@) {
            decode_utf8(path@)
        } else {
            lossy_path(path@)
        }),
{
    UnixPath::new(path).to_string_lossy().into_owned()
}

} // verus!
