//! Files as the search sees them, and the order of their paths.

use crate::order::{bytes_le, bytes_order, bytes_order_is_total, lex, lex_after_common, lex_is_total, lex_le};
use vstd::prelude::*;
use vstd::relations::{antisymmetric, reflexive, strongly_connected, total_ordering, transitive};

verus! {

/// One component of a path. Names are the bytes in which the system keeps them.
pub enum PathPart {
    /// What stands before the root, as bytes that compare as prefixes do.
    Prefix(Vec<u8>),
    RootDir,
    CurDir,
    ParentDir,
    Normal(Vec<u8>),
}

/// A component as it is ranked: its kind, then its name.
pub type PartView = (nat, Seq<u8>);

impl View for PathPart {
    type V = PartView;

    open spec fn view(&self) -> PartView {
        match self {
            PathPart::Prefix(name) => (0, name@),
            PathPart::RootDir => (1, Seq::<u8>::empty()),
            PathPart::CurDir => (2, Seq::<u8>::empty()),
            PathPart::ParentDir => (3, Seq::<u8>::empty()),
            PathPart::Normal(name) => (4, name@),
        }
    }
}

/// A path as the sequence of its components.
pub open spec fn path_of(parts: Seq<PathPart>) -> Seq<PartView> {
    parts.map_values(|part: PathPart| part@)
}

/// The order of components: by kind, then by name.
pub open spec fn part_order() -> spec_fn(PartView, PartView) -> bool {
    |a: PartView, b: PartView| a.0 < b.0 || (a.0 == b.0 && bytes_order()(a.1, b.1))
}

/// The order of paths: component by component.
pub open spec fn path_order() -> spec_fn(Seq<PartView>, Seq<PartView>) -> bool {
    lex(part_order())
}

/// Whether `path` is `base` or lies below it.
pub open spec fn is_under(path: Seq<PartView>, base: Seq<PartView>) -> bool {
    base.len() <= path.len() && path.take(base.len() as int) == base
}

/// Components are totally ordered.
pub proof fn part_order_is_total()
    ensures
        total_ordering(part_order()),
{
    bytes_order_is_total();
    let r = part_order();
    let bytes = bytes_order();
    assert(reflexive(r)) by {
        assert forall|a: PartView| #[trigger] r(a, a) by {
            assert(bytes(a.1, a.1));
        }
    }
    assert(antisymmetric(r)) by {
        assert forall|a: PartView, b: PartView| #[trigger] r(a, b) && #[trigger] r(b, a) implies a
            == b by {
            assert(bytes(a.1, b.1) && bytes(b.1, a.1));
        }
    }
    assert(transitive(r)) by {
        assert forall|a: PartView, b: PartView, c: PartView| #[trigger] r(a, b) && #[trigger] r(
            b,
            c,
        ) implies r(a, c) by {
            if a.0 == b.0 && b.0 == c.0 {
                assert(bytes(a.1, b.1) && bytes(b.1, c.1));
            }
        }
    }
    assert(strongly_connected(r)) by {
        assert forall|a: PartView, b: PartView| #[trigger] r(a, b) || #[trigger] r(b, a) by {
            assert(bytes(a.1, b.1) || bytes(b.1, a.1));
        }
    }
}

/// Paths are totally ordered.
pub proof fn path_order_is_total()
    ensures
        total_ordering(path_order()),
{
    part_order_is_total();
    lex_is_total(part_order());
}

impl PathPart {
    /// The kind's place in the order.
    fn kind(&self) -> (r: u8)
        ensures
            r == self@.0,
    {
        match self {
            PathPart::Prefix(_) => 0,
            PathPart::RootDir => 1,
            PathPart::CurDir => 2,
            PathPart::ParentDir => 3,
            PathPart::Normal(_) => 4,
        }
    }

    /// Whether this component comes before `other`, or is the same.
    fn at_most_part(&self, other: &PathPart) -> (r: bool)
        ensures
            r == part_order()(self@, other@),
    {
        proof {
            bytes_order_is_total();
        }
        let a: u8 = self.kind();
        let b: u8 = other.kind();
        if a != b {
            return a < b;
        }
        match (self, other) {
            (PathPart::Prefix(x), PathPart::Prefix(y)) => bytes_le(x, y),
            (PathPart::Normal(x), PathPart::Normal(y)) => bytes_le(x, y),
            _ => true,
        }
    }
}

/// Whether two components are the same.
fn same_part(a: &PathPart, b: &PathPart) -> (r: bool)
    ensures
        r == (a@ == b@),
{
    proof {
        part_order_is_total();
    }
    a.at_most_part(b) && b.at_most_part(a)
}

/// Whether path `a` comes before path `b`, or is the same.
pub fn path_le(a: &Vec<PathPart>, b: &Vec<PathPart>) -> (r: bool)
    ensures
        r == path_order()(path_of(a@), path_of(b@)),
{
    let ghost x = path_of(a@);
    let ghost y = path_of(b@);
    let mut i: usize = 0;
    assert(x.skip(0) =~= x);
    assert(y.skip(0) =~= y);
    while i < a.len() && i < b.len()
        invariant
            x == path_of(a@),
            y == path_of(b@),
            i <= a.len(),
            i <= b.len(),
            lex_le(x, y, part_order()) == lex_le(x.skip(i as int), y.skip(i as int), part_order()),
        decreases a.len() - i,
    {
        assert(x.skip(i as int).drop_first() =~= x.skip(i + 1));
        assert(y.skip(i as int).drop_first() =~= y.skip(i + 1));
        if !same_part(&a[i], &b[i]) {
            return a[i].at_most_part(&b[i]);
        }
        i = i + 1;
    }
    i == a.len()
}

/// Whether `path` is `base` or lies below it.
pub fn path_starts_with(path: &Vec<PathPart>, base: &Vec<PathPart>) -> (r: bool)
    ensures
        r == is_under(path_of(path@), path_of(base@)),
{
    if base.len() > path.len() {
        return false;
    }
    for i in 0..base.len()
        invariant
            base.len() <= path.len(),
            forall|k: int| 0 <= k < i ==> (#[trigger] path[k])@ == base[k]@,
    {
        if !same_part(&path[i], &base[i]) {
            proof {
                let x = path_of(path@).take(base.len() as int);
                assert(x[i as int] != path_of(base@)[i as int]);
            }
            return false;
        }
    }
    assert(path_of(path@).take(base.len() as int) =~= path_of(base@));
    true
}

/// A file that the search found.
pub struct FileEntry {
    /// The components of its path.
    pub path: Vec<PathPart>,
    /// The text under which its hashes are cached.
    pub path_key: String,
    /// Its length in bytes.
    pub size: u64,
    /// When it was last changed, in seconds since the Unix epoch.
    pub modified_unix_secs: u64,
}

/// What a [`FileEntry`] holds.
pub struct FileView {
    pub path: Seq<PartView>,
    pub path_key: Seq<char>,
    pub size: u64,
    pub modified_unix_secs: u64,
}

impl View for FileEntry {
    type V = FileView;

    open spec fn view(&self) -> FileView {
        FileView {
            path: path_of(self.path@),
            path_key: self.path_key@,
            size: self.size,
            modified_unix_secs: self.modified_unix_secs,
        }
    }
}

/// The files of a list.
pub open spec fn files_of(files: Seq<FileEntry>) -> Seq<FileView> {
    files.map_values(|file: FileEntry| file@)
}

/// A path is under a directory if and only if it is the directory's path and
/// something behind it, of however many components either is.
pub proof fn under_is_behind(base: Seq<PartView>, rest: Seq<PartView>, path: Seq<PartView>)
    ensures
        is_under(base + rest, base),
        is_under(path, base) <==> exists|behind: Seq<PartView>| path == #[trigger] (base + behind),
{
    assert((base + rest).take(base.len() as int) =~= base);
    if is_under(path, base) {
        let behind = path.skip(base.len() as int);
        assert(path =~= base + behind);
    }
    if exists|behind: Seq<PartView>| path == #[trigger] (base + behind) {
        let behind = choose|behind: Seq<PartView>| path == #[trigger] (base + behind);
        assert(path.take(base.len() as int) =~= base);
    }
}

/// Components rank by their kind: what stands before the root, the root, the current
/// directory, the parent directory, a name; and names, like prefixes, by their bytes.
pub proof fn parts_rank_by_kind(prefix: Vec<u8>, other: Vec<u8>, name: Vec<u8>, next: Vec<u8>)
    ensures
        ({
            let before = |a: PathPart, b: PathPart|
                part_order()(a@, b@) && !part_order()(b@, a@);
            &&& before(PathPart::Prefix(prefix), PathPart::RootDir)
            &&& before(PathPart::Prefix(prefix), PathPart::CurDir)
            &&& before(PathPart::Prefix(prefix), PathPart::ParentDir)
            &&& before(PathPart::Prefix(prefix), PathPart::Normal(name))
            &&& before(PathPart::RootDir, PathPart::CurDir)
            &&& before(PathPart::RootDir, PathPart::ParentDir)
            &&& before(PathPart::RootDir, PathPart::Normal(name))
            &&& before(PathPart::CurDir, PathPart::ParentDir)
            &&& before(PathPart::CurDir, PathPart::Normal(name))
            &&& before(PathPart::ParentDir, PathPart::Normal(name))
        }),
        part_order()(PathPart::Prefix(prefix)@, PathPart::Prefix(other)@) == bytes_order()(
            prefix@,
            other@,
        ),
        part_order()(PathPart::Normal(name)@, PathPart::Normal(next)@) == bytes_order()(
            name@,
            next@,
        ),
        PathPart::Prefix(prefix)@ == PathPart::Prefix(other)@ ==> prefix@ == other@,
        PathPart::Normal(name)@ == PathPart::Normal(next)@ ==> name@ == next@,
{
}

/// Paths are ordered by the first component in which they differ; one that begins
/// with another comes after it.
pub proof fn path_order_by_first_difference(
    common: Seq<PartView>,
    a: Seq<PartView>,
    b: Seq<PartView>,
)
    requires
        a.len() > 0,
        b.len() > 0,
        a.first() != b.first(),
    ensures
        path_order()(common + a, common + b) == part_order()(a.first(), b.first()),
        path_order()(common, common + a),
        !path_order()(common + a, common),
        path_order()(common, common),
{
    let none = Seq::<PartView>::empty();
    assert(common + none =~= common);
    lex_after_common(common, a, b, part_order());
    lex_after_common(common, none, a, part_order());
    lex_after_common(common, a, none, part_order());
    lex_after_common(common, none, none, part_order());
}

/// The view of a list of files leaves nothing out: each file is there with its path,
/// component by component, its key, its size and its time.
pub proof fn files_are_seen_whole(files: Seq<FileEntry>, i: int)
    requires
        0 <= i < files.len(),
    ensures
        files_of(files).len() == files.len(),
        files_of(files)[i].size == files[i].size,
        files_of(files)[i].modified_unix_secs == files[i].modified_unix_secs,
        files_of(files)[i].path_key == files[i].path_key@,
        files_of(files)[i].path.len() == files[i].path@.len(),
        forall|k: int|
            0 <= k < files[i].path@.len() ==> #[trigger] files_of(files)[i].path[k]
                == files[i].path@[k]@,
{
}

} // verus!
