//! What source and destination paths stand for.

use crate::domain::{DstObjKind, SrcObjKind};
use crate::paths;
use crate::runtime;
use crate::text;
use vstd::prelude::*;

verus! {

/// A path with the home directory put in for a leading tilde.
pub open spec fn expanded_path(value: Seq<char>, home: Option<Seq<char>>) -> Seq<char> {
    match home {
        Some(h) => if text::begins(value, "~/"@) {
            h.push('/') + value.skip(2)
        } else if value == "~"@ {
            h
        } else {
            value
        },
        None => value,
    }
}

/// Puts the home directory in for a leading tilde.
pub fn expand_user(value: &str, home: Option<&str>) -> (r: String)
    ensures
        r@ == expanded_path(
            value@,
            match home {
                Some(h) => Some(h@),
                None => None,
            },
        ),
{
    let chars = text::to_chars(value);
    match home {
        Some(h) => {
            if text::begins_with(chars.as_slice(), text::to_chars("~/").as_slice()) {
                proof {
                    reveal_strlit("~/");
                }
                let mut out = text::to_chars(h);
                out.push('/');
                let rest = text::part(chars.as_slice(), 2, chars.len());
                assert(rest@ == value@.skip(2));
                text::extend(&mut out, rest.as_slice());
                text::from_chars(out.as_slice())
            } else if text::is_text(chars.as_slice(), "~") {
                text::copy(h)
            } else {
                text::from_chars(chars.as_slice())
            }
        },
        None => text::from_chars(chars.as_slice()),
    }
}

/// What is at a path, links not followed.
#[derive(Clone, Copy, Debug, PartialEq, Eq, Structural)]
pub enum PathKind {
    Missing,
    Link,
    Directory,
    File,
    Other,
}

/// Which part of a path is freed of symbolic links.
#[derive(Clone, Copy, Debug, PartialEq, Eq, Structural)]
pub enum ResolvedPart {
    /// All of it.
    Whole,
    /// All but its last name.
    Parent,
    /// As much of it as exists.
    Existing,
}

/// Which part of a path is freed of symbolic links.
pub open spec fn resolved_part(kind: PathKind) -> ResolvedPart {
    match kind {
        PathKind::Missing => ResolvedPart::Existing,
        PathKind::Link => ResolvedPart::Parent,
        PathKind::Directory => ResolvedPart::Whole,
        PathKind::File => ResolvedPart::Whole,
        PathKind::Other => ResolvedPart::Whole,
    }
}

/// Finds which part of a path is freed of symbolic links, by what is at it. A link is
/// kept as what is copied, in place of what it leads to.
pub fn part_to_resolve(kind: PathKind) -> (r: ResolvedPart)
    ensures
        r == resolved_part(kind),
{
    match kind {
        PathKind::Missing => ResolvedPart::Existing,
        PathKind::Link => ResolvedPart::Parent,
        PathKind::Directory => ResolvedPart::Whole,
        PathKind::File => ResolvedPart::Whole,
        PathKind::Other => ResolvedPart::Whole,
    }
}

/// Why a path cannot be used.
#[derive(Clone, Copy, Debug, PartialEq, Eq, Structural)]
pub enum ResolveError {
    SourceMissing,
    SourceNeitherFileNorDirectory,
    DestinationParentMissing,
    DestinationMustBeDirectory,
}

/// What is said of a path that cannot be used. `parent` is the directory that
/// would hold it.
pub open spec fn resolve_text(e: ResolveError, value: Seq<char>, parent: Seq<char>) -> Seq<char> {
    match e {
        ResolveError::SourceMissing => "Source path does not exist: "@ + value,
        ResolveError::SourceNeitherFileNorDirectory => {
            "Source path must be a file or directory: "@ + value
        },
        ResolveError::DestinationParentMissing => {
            "Destination parent directory does not exist: "@ + parent
        },
        ResolveError::DestinationMustBeDirectory => {
            "Destination path must be a directory (or a new directory path): "@ + value
        },
    }
}

impl ResolveError {
    /// Says what is wrong with a path.
    pub fn message(self, value: &str, parent: &str) -> (r: String)
        ensures
            r@ == resolve_text(self, value@, parent@),
    {
        let (lead, what) = match self {
            ResolveError::SourceMissing => ("Source path does not exist: ", value),
            ResolveError::SourceNeitherFileNorDirectory => {
                ("Source path must be a file or directory: ", value)
            },
            ResolveError::DestinationParentMissing => {
                ("Destination parent directory does not exist: ", parent)
            },
            ResolveError::DestinationMustBeDirectory => {
                ("Destination path must be a directory (or a new directory path): ", value)
            },
        };
        let mut out = text::copy(lead);
        out.push_str(what);
        out
    }
}

/// What a source is.
pub open spec fn source_kind_of(kind: PathKind) -> Result<SrcObjKind, ResolveError> {
    match kind {
        PathKind::Missing => Err(ResolveError::SourceMissing),
        PathKind::Link | PathKind::File => Ok(SrcObjKind::File),
        PathKind::Directory => Ok(SrcObjKind::Dir),
        PathKind::Other => Err(ResolveError::SourceNeitherFileNorDirectory),
    }
}

/// Decides what a source is. A link is copied as a link.
pub fn resolve_source(kind: PathKind) -> (r: Result<SrcObjKind, ResolveError>)
    ensures
        r == source_kind_of(kind),
{
    match kind {
        PathKind::Missing => Err(ResolveError::SourceMissing),
        PathKind::Link => Ok(SrcObjKind::File),
        PathKind::File => Ok(SrcObjKind::File),
        PathKind::Directory => Ok(SrcObjKind::Dir),
        PathKind::Other => Err(ResolveError::SourceNeitherFileNorDirectory),
    }
}

/// What a destination is for a file. A link that is to be replaced is not
/// followed; `leads_to_dir` tells what a path leads to otherwise.
pub open spec fn file_destination(
    kind: PathKind,
    leads_to_dir: bool,
    parent_is_dir: bool,
    replace_links: bool,
) -> Result<DstObjKind, ResolveError> {
    if kind == PathKind::Missing {
        if parent_is_dir {
            Ok(DstObjKind::File)
        } else {
            Err(ResolveError::DestinationParentMissing)
        }
    } else if if replace_links {
        kind == PathKind::Directory
    } else {
        leads_to_dir
    } {
        Ok(DstObjKind::Dir)
    } else {
        Ok(DstObjKind::File)
    }
}

/// Decides what a destination is for a file.
pub fn resolve_destination_for_file(
    kind: PathKind,
    leads_to_dir: bool,
    parent_is_dir: bool,
    replace_links: bool,
) -> (r: Result<DstObjKind, ResolveError>)
    ensures
        r == file_destination(kind, leads_to_dir, parent_is_dir, replace_links),
{
    let into = match kind {
        PathKind::Missing => {
            return if parent_is_dir {
                Ok(DstObjKind::File)
            } else {
                Err(ResolveError::DestinationParentMissing)
            };
        },
        PathKind::Directory => replace_links || leads_to_dir,
        _ => !replace_links && leads_to_dir,
    };
    if into {
        Ok(DstObjKind::Dir)
    } else {
        Ok(DstObjKind::File)
    }
}

/// What a destination is for a directory.
pub open spec fn dir_destination(
    exists: bool,
    leads_to_dir: bool,
    parent_is_dir: bool,
    allow_existing_file: bool,
) -> Result<DstObjKind, ResolveError> {
    if exists {
        if leads_to_dir {
            Ok(DstObjKind::DirExisting)
        } else if allow_existing_file {
            Ok(DstObjKind::FileExistingForDir)
        } else {
            Err(ResolveError::DestinationMustBeDirectory)
        }
    } else if parent_is_dir {
        Ok(DstObjKind::DirNew)
    } else {
        Err(ResolveError::DestinationParentMissing)
    }
}

/// Decides what a destination is for a directory.
pub fn resolve_destination_for_dir(
    exists: bool,
    leads_to_dir: bool,
    parent_is_dir: bool,
    allow_existing_file: bool,
) -> (r: Result<DstObjKind, ResolveError>)
    ensures
        r == dir_destination(exists, leads_to_dir, parent_is_dir, allow_existing_file),
{
    if exists {
        if leads_to_dir {
            Ok(DstObjKind::DirExisting)
        } else if allow_existing_file {
            Ok(DstObjKind::FileExistingForDir)
        } else {
            Err(ResolveError::DestinationMustBeDirectory)
        }
    } else if parent_is_dir {
        Ok(DstObjKind::DirNew)
    } else {
        Err(ResolveError::DestinationParentMissing)
    }
}

/// Tests whether a rename stays within one file system, by the devices of the
/// two directories, as far as known.
pub fn can_fast_rename_same_fs(source_parent: Option<u64>, target_parent: Option<u64>) -> (r: bool)
    ensures
        r == (source_parent is Some && source_parent == target_parent),
{
    match (source_parent, target_parent) {
        (Some(a), Some(b)) => a == b,
        _ => false,
    }
}

/// The bytes in free blocks.
pub fn available_bytes(blocks: u64, block_size: u64) -> (r: u64)
    ensures
        r == runtime::sat_mul(blocks, block_size),
{
    match blocks.checked_mul(block_size) {
        Some(n) => n,
        None => u64::MAX,
    }
}

/// A path seen from a directory.
pub open spec fn absolute_path(input: Seq<char>, current_dir: Seq<char>) -> Seq<char> {
    if text::begins(input, "/"@) {
        input
    } else {
        paths::joined_path(current_dir, input)
    }
}

/// Makes a path absolute.
pub fn make_absolute(input: &str, current_dir: &str) -> (r: String)
    ensures
        r@ == absolute_path(input@, current_dir@),
{
    let chars = text::to_chars(input);
    if text::begins_with(chars.as_slice(), text::to_chars("/").as_slice()) {
        text::from_chars(chars.as_slice())
    } else {
        paths::join_path(current_dir, input)
    }
}

/// A path with names behind it.
pub open spec fn with_names(base: Seq<char>, names: Seq<Seq<char>>) -> Seq<char>
    decreases names.len(),
{
    if names.len() == 0 {
        base
    } else {
        paths::joined_path(with_names(base, names.drop_last()), names.last())
    }
}

/// The names that are taken off a path to come to the one that is `n` above it, the
/// last one first. What leads upwards is no name.
pub open spec fn taken_off_of(parts: Seq<Seq<char>>, n: int) -> Seq<Seq<char>>
    decreases n,
{
    if n <= 0 || n > parts.len() {
        Seq::empty()
    } else {
        let part = parts[parts.len() - n];
        if part == "/"@ || part == "."@ || part == ".."@ {
            taken_off_of(parts, n - 1)
        } else {
            taken_off_of(parts, n - 1).push(part)
        }
    }
}

/// Lists the names that are taken off a path to come to the one that is `n` above it,
/// the last one first.
pub fn names_taken_off(path: &str, n: usize) -> (r: Vec<String>)
    ensures
        text::texts(r@) == taken_off_of(
            paths::comps(path@),
            if n <= paths::comps(path@).len() {
                n as int
            } else {
                paths::comps(path@).len() as int
            },
        ),
{
    let parts = paths::components(text::to_chars(path).as_slice());
    let ghost all = text::rows(parts@);
    let count: usize = if n <= parts.len() {
        n
    } else {
        parts.len()
    };
    let mut out: Vec<String> = Vec::new();
    let mut i: usize = 0;
    assert(text::texts(out@) == taken_off_of(all, 0));
    while i < count
        invariant
            i <= count <= parts@.len(),
            all == text::rows(parts@),
            text::texts(out@) == taken_off_of(all, i as int),
        decreases count - i,
    {
        let part = &parts[parts.len() - 1 - i];
        assert(all[all.len() - (i + 1)] == part@);
        if !text::is_text(part.as_slice(), "/") && !text::is_text(part.as_slice(), ".")
            && !text::is_text(part.as_slice(), "..") {
            let ghost before = text::texts(out@);
            out.push(text::from_chars(part.as_slice()));
            assert(text::texts(out@) == before.push(part@));
        }
        i = i + 1;
    }
    out
}

/// Puts the names that do not exist yet behind a resolved path. They are given
/// as they were taken off, the last one first.
pub fn put_back(base: &str, taken_off: &Vec<String>) -> (r: String)
    ensures
        r@ == with_names(base@, text::texts(taken_off@).reverse()),
{
    let ghost all = text::texts(taken_off@).reverse();
    let mut out = text::copy(base);
    let mut n: usize = taken_off.len();
    let ghost mut done: int = 0;
    assert(all.take(0) == Seq::<Seq<char>>::empty());
    while n > 0
        invariant
            n <= taken_off@.len(),
            done == taken_off@.len() - n,
            all == text::texts(taken_off@).reverse(),
            out@ == with_names(base@, all.take(done)),
        decreases n,
    {
        out = paths::join_path(out.as_str(), taken_off[n - 1].as_str());
        proof {
            assert(all.take(done + 1).drop_last() == all.take(done));
            assert(all.take(done + 1).last() == taken_off@[n - 1]@);
            done = done + 1;
        }
        n = n - 1;
    }
    assert(all.take(all.len() as int) == all);
    out
}

/// The places to look for something that exists: a path, and all above it. An
/// empty path is the current directory.
pub open spec fn probes_of(path: Seq<char>) -> Seq<Seq<char>> {
    let first = if path.len() == 0 {
        "."@
    } else {
        path
    };
    let parts = paths::comps(first);
    seq![first] + probes_above(parts, parts.len() - 1)
}

/// The paths of the first `n` components and of all above.
pub open spec fn probes_above(parts: Seq<Seq<char>>, n: int) -> Seq<Seq<char>>
    decreases n + 1,
{
    if n < 0 || (n == 0 && parts.len() > 0 && parts[0] == "/"@) {
        Seq::empty()
    } else {
        seq![paths::rendered(parts.take(n))] + probes_above(parts, n - 1)
    }
}

/// Lists the places to look for something that exists.
pub fn probe_paths(path: &str) -> (r: Vec<String>)
    ensures
        text::texts(r@) == probes_of(path@),
{
    let first = if path.is_empty() {
        "."
    } else {
        path
    };
    let parts = paths::components(text::to_chars(first).as_slice());
    let ghost p = text::rows(parts@);
    let mut out: Vec<String> = Vec::new();
    out.push(text::copy(first));
    assert(text::texts(out@) == seq![first@]);
    let rooted = parts.len() > 0 && text::is_text(parts[0].as_slice(), "/");
    assert(parts@.len() > 0 ==> p[0] == parts@[0]@);
    let mut n: usize = parts.len();
    while n > 0 && !(n == 1 && rooted)
        invariant
            n <= parts@.len(),
            p == text::rows(parts@),
            rooted == (p.len() > 0 && p[0] == "/"@),
            text::texts(out@) + probes_above(p, n - 1) == seq![first@] + probes_above(
                p,
                p.len() - 1,
            ),
        decreases n,
    {
        let head = paths::between(parts.as_slice(), 0, n - 1);
        assert(text::rows(head@) == p.take(n - 1));
        let ghost before = text::texts(out@);
        let shown = text::from_chars(paths::render(head.as_slice()).as_slice());
        out.push(shown);
        assert(text::texts(out@) == before.push(shown@));
        assert(before + (seq![shown@] + probes_above(p, n - 2)) == before.push(shown@)
            + probes_above(p, n - 2));
        n = n - 1;
    }
    assert(probes_above(p, n - 1) == Seq::<Seq<char>>::empty());
    assert(text::texts(out@) + Seq::<Seq<char>>::empty() == text::texts(out@));
    out
}

/// Only a tilde that stands alone or before a slash means the home directory, and only
/// where that is known; any other path is left as it is.
pub proof fn law_only_a_lone_tilde_is_home(value: Seq<char>, home: Option<Seq<char>>)
    ensures
        ({
            let r = expanded_path(value, home);
            &&& home is None ==> r == value
            &&& value.len() == 0 || value[0] != '~' ==> r == value
            &&& value.len() > 1 && value[0] == '~' && value[1] != '/' ==> r == value
            &&& home is Some && value.len() == 1 && value[0] == '~' ==> r == home->0
            &&& home is Some && value.len() > 1 && value[0] == '~' && value[1] == '/' ==> r
                == home->0 + value.skip(1)
        }),
{
    reveal_strlit("~/");
    reveal_strlit("~");
    if value.len() > 1 && value[0] == '~' && value[1] == '/' {
        assert(value.take(2) == "~/"@);
        if let Some(h) = home {
            assert(h.push('/') + value.skip(2) == h + value.skip(1));
        }
    }
    if value.len() >= 2 && value.take(2) == "~/"@ {
        assert(value.take(2)[0] == '~' && value.take(2)[1] == '/');
    }
    if value.len() == 1 && value[0] == '~' {
        assert(value == "~"@);
    }
}

/// A file goes into a directory exactly where there is one: a link counts as what it leads
/// to, unless it is to be replaced. Where nothing is, the directory that would hold it has
/// to be there.
pub proof fn law_files_go_into_directories(
    kind: PathKind,
    leads_to_dir: bool,
    parent_is_dir: bool,
    replace_links: bool,
)
    requires
        kind == PathKind::Directory ==> leads_to_dir,
        leads_to_dir ==> kind == PathKind::Directory || kind == PathKind::Link,
    ensures
        ({
            let r = file_destination(kind, leads_to_dir, parent_is_dir, replace_links);
            &&& r is Err <==> kind == PathKind::Missing && !parent_is_dir
            &&& r is Err ==> r->Err_0 == ResolveError::DestinationParentMissing
            &&& kind == PathKind::Directory ==> r == Ok::<DstObjKind, ResolveError>(DstObjKind::Dir)
            &&& kind == PathKind::Link ==> (r == Ok::<DstObjKind, ResolveError>(DstObjKind::Dir)
                <==> leads_to_dir && !replace_links)
            &&& kind != PathKind::Directory && kind != PathKind::Link && r is Ok ==> r->Ok_0
                == DstObjKind::File
        }),
{
}

/// A directory goes to an existing directory, to a new one in a directory that is there,
/// or, where that is allowed, in place of a file; anything else is refused.
pub proof fn law_directories_need_a_place(
    exists: bool,
    leads_to_dir: bool,
    parent_is_dir: bool,
    allow_existing_file: bool,
)
    ensures
        ({
            let r = dir_destination(exists, leads_to_dir, parent_is_dir, allow_existing_file);
            &&& exists && leads_to_dir <==> r == Ok::<DstObjKind, ResolveError>(
                DstObjKind::DirExisting,
            )
            &&& !exists && parent_is_dir <==> r == Ok::<DstObjKind, ResolveError>(DstObjKind::DirNew)
            &&& exists && !leads_to_dir && allow_existing_file <==> r == Ok::<
                DstObjKind,
                ResolveError,
            >(DstObjKind::FileExistingForDir)
            &&& exists && !leads_to_dir && !allow_existing_file <==> r == Err::<
                DstObjKind,
                ResolveError,
            >(ResolveError::DestinationMustBeDirectory)
            &&& !exists && !parent_is_dir <==> r == Err::<DstObjKind, ResolveError>(
                ResolveError::DestinationParentMissing,
            )
        }),
{
}

/// An absolute path stands for itself, and any other lies below the current directory.
pub proof fn law_made_absolute(input: Seq<char>, current_dir: Seq<char>)
    requires
        paths::is_absolute(current_dir),
    ensures
        paths::is_absolute(input) ==> absolute_path(input, current_dir) == input,
        paths::is_absolute(absolute_path(input, current_dir)),
        !paths::is_absolute(input) ==> paths::under(
            absolute_path(input, current_dir),
            current_dir,
        ),
{
    reveal_strlit("/");
    if input.len() > 0 {
        assert(input.take(1)[0] == input[0]);
        if input[0] == '/' {
            assert(input.take(1) == "/"@);
        }
    }
    if !paths::is_absolute(input) {
        paths::law_joining_goes_down(current_dir, input);
    }
}

/// The names that are taken off a path are its last ones, the last first, as long as they
/// are names.
pub proof fn law_the_last_names_are_taken_off(parts: Seq<Seq<char>>, n: int)
    requires
        0 <= n <= parts.len(),
        forall|i: int|
            parts.len() - n <= i < parts.len() ==> #[trigger] parts[i] != "/"@ && parts[i] != "."@
                && parts[i] != ".."@,
    ensures
        taken_off_of(parts, n) == Seq::new(n as nat, |i: int| parts[parts.len() - 1 - i]),
    decreases n,
{
    let all = Seq::new(n as nat, |i: int| parts[parts.len() - 1 - i]);
    if n > 0 {
        law_the_last_names_are_taken_off(parts, n - 1);
        assert(parts[parts.len() - n] != "/"@);
    }
    assert(taken_off_of(parts, n) =~= all);
}

/// Names that are put behind a path lead below it, one after the other.
pub proof fn law_names_are_put_back(base: Seq<char>, names: Seq<Seq<char>>, name: Seq<char>)
    ensures
        with_names(base, Seq::empty()) == base,
        with_names(base, names.push(name)) == paths::joined_path(with_names(base, names), name),
{
    assert(names.push(name).drop_last() == names);
}

/// The places to look for something that exists begin with the path itself and go upwards
/// name by name.
pub proof fn law_probes_go_upwards(parts: Seq<Seq<char>>, n: int, i: int)
    requires
        0 <= n <= parts.len(),
        0 <= i < probes_above(parts, n).len(),
    ensures
        i <= n,
        probes_above(parts, n)[i] == paths::rendered(parts.take(n - i)),
        parts[0] != "/"@ ==> probes_above(parts, n).len() == n + 1,
        parts.len() > 0 && parts[0] == "/"@ ==> probes_above(parts, n).len() == n,
    decreases n,
{
    if parts.len() > 0 && parts[0] == "/"@ && n == 0 {
    } else {
        assert(probes_above(parts, n)[0] == paths::rendered(parts.take(n)));
        if i > 0 {
            assert(probes_above(parts, n)[i] == probes_above(parts, n - 1)[i - 1]);
            law_probes_go_upwards(parts, n - 1, i - 1);
        } else if n > 0 && probes_above(parts, n - 1).len() > 0 {
            law_probes_go_upwards(parts, n - 1, 0);
        }
    }
}

/// The first place to look at is the path, and the current directory for an empty one.
pub proof fn law_the_path_is_probed_first(path: Seq<char>)
    ensures
        probes_of(path).len() > 0,
        path.len() > 0 ==> probes_of(path)[0] == path,
        path.len() == 0 ==> probes_of(path)[0] == "."@,
{
}

/// A link is a source of its own: it counts as a file, and is not followed. What is missing
/// or neither a file nor a directory is no source.
pub proof fn law_links_are_not_followed(kind: PathKind)
    ensures
        kind is Link <==> resolved_part(kind) is Parent,
        kind is Missing <==> resolved_part(kind) is Existing,
        source_kind_of(kind) == Ok::<SrcObjKind, ResolveError>(SrcObjKind::Dir) <==> kind
            is Directory,
        source_kind_of(kind) == Ok::<SrcObjKind, ResolveError>(SrcObjKind::File) <==> kind is File
            || kind is Link,
        kind is Missing <==> source_kind_of(kind) == Err::<SrcObjKind, ResolveError>(
            ResolveError::SourceMissing,
        ),
{
}

} // verus!
