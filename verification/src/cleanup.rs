//! What a move removes of its source, and a synchronisation of its
//! destination.

use crate::domain;
use crate::domain::DeleteCleanupOutcome;
use crate::engine::AncestorKind;
use crate::paths;
use crate::prescan::{
    ManifestDeleteDirEntry, ManifestDeleteEntry, ManifestDir, ManifestFileEntry, TransferManifest,
};
use crate::text;
use vstd::prelude::*;

verus! {

/// What stands at a path.
#[derive(Debug)]
pub enum Found {
    /// It cannot be reached: something on the way is gone or no directory.
    Unreachable,
    Missing,
    Directory { dev: u64, ino: u64 },
    /// A symbolic link, with what is known of the link itself.
    Link { identity: Identity, target: Option<String> },
    File { identity: Identity },
    Unreadable,
}

/// By what a file or link is known again.
#[derive(Clone, Copy, Debug, PartialEq, Eq)]
pub struct Identity {
    pub dev: u64,
    pub ino: u64,
    pub size: u64,
    pub mtime: Option<i128>,
}

/// Whether something is what was planned to go: the same inode with the same size,
/// and with the same time if that was known.
pub open spec fn is_planned(e: ManifestDeleteEntry, found: Identity) -> bool {
    &&& found.dev == e.dev
    &&& found.ino == e.ino
    &&& found.size == e.size
    &&& e.mtime is None || found.mtime == e.mtime
}

fn has_identity(e: &ManifestDeleteEntry, found: &Identity) -> (r: bool)
    ensures
        r == is_planned(*e, *found),
{
    let same_time = match (e.mtime, found.mtime) {
        (None, _) => true,
        (Some(a), Some(b)) => a == b,
        (Some(_), None) => false,
    };
    found.dev == e.dev && found.ino == e.ino && found.size == e.size && same_time
}

/// What is done with a destination entry that is to go.
#[derive(Clone, Copy, Debug, PartialEq, Eq, Structural)]
pub enum DeleteStep {
    /// It is gone already; it counts as deleted.
    Gone,
    Remove,
    /// It is a directory now.
    ChangedType,
    /// It is not what was planned to go.
    Changed,
    Fail,
}

/// Whether a file or link is the one that was planned to go. What was a link is known
/// by its target; what was none is known by its identity, whatever it is now.
pub open spec fn is_same_entry(e: ManifestDeleteEntry, found: Found) -> bool {
    if e.is_symlink {
        match found {
            Found::Link { target, .. } => target is Some && e.link_target is Some && target->0@
                == e.link_target->0@,
            _ => false,
        }
    } else {
        match found {
            Found::File { identity } => is_planned(e, identity),
            Found::Link { identity, .. } => is_planned(e, identity),
            _ => false,
        }
    }
}

/// What is done with a destination file that is to go.
pub open spec fn delete_step_of(e: ManifestDeleteEntry, found: Found) -> DeleteStep {
    match found {
        Found::Unreachable | Found::Missing => DeleteStep::Gone,
        Found::Directory { .. } => DeleteStep::ChangedType,
        Found::Unreadable => DeleteStep::Fail,
        _ => if is_same_entry(e, found) {
            DeleteStep::Remove
        } else {
            DeleteStep::Changed
        },
    }
}

/// Decides what is done with a destination file that is to go.
pub fn delete_step(e: &ManifestDeleteEntry, found: &Found) -> (r: DeleteStep)
    ensures
        r == delete_step_of(*e, *found),
{
    match found {
        Found::Unreachable => DeleteStep::Gone,
        Found::Missing => DeleteStep::Gone,
        Found::Directory { .. } => DeleteStep::ChangedType,
        Found::Unreadable => DeleteStep::Fail,
        Found::Link { identity, target } => {
            let same = if e.is_symlink {
                match (target, &e.link_target) {
                    (Some(a), Some(b)) => text::equal(a.as_str(), b.as_str()),
                    _ => false,
                }
            } else {
                has_identity(e, identity)
            };
            if same {
                DeleteStep::Remove
            } else {
                DeleteStep::Changed
            }
        },
        Found::File { identity } => {
            if !e.is_symlink && has_identity(e, identity) {
                DeleteStep::Remove
            } else {
                DeleteStep::Changed
            }
        },
    }
}

/// A synchronisation removes a file only if it is the inode that was planned
/// to go, with the size that it had.
pub proof fn law_only_planned_files_are_removed(e: ManifestDeleteEntry, found: Found)
    requires
        !e.is_symlink,
        delete_step_of(e, found) == DeleteStep::Remove,
    ensures
        match found {
            Found::File { identity } => is_planned(e, identity),
            Found::Link { identity, .. } => is_planned(e, identity),
            _ => false,
        },
{
}

/// Counts a destination file as deleted.
pub fn count_deleted(total: &mut DeleteCleanupOutcome, size: u64)
    ensures
        *final(total) == (DeleteCleanupOutcome {
            files: domain::sat_add(old(total).files, 1),
            bytes: domain::sat_add(old(total).bytes, size),
            success: old(total).success,
        }),
{
    total.files = total.files.saturating_add(1);
    total.bytes = total.bytes.saturating_add(size);
}

/// What is done with a destination directory that is to go.
pub open spec fn delete_dir_step_of(e: ManifestDeleteDirEntry, found: Found) -> DeleteStep {
    match found {
        Found::Unreachable | Found::Missing => DeleteStep::Gone,
        Found::Directory { dev, ino } => if dev == e.dev && ino == e.ino {
            DeleteStep::Remove
        } else {
            DeleteStep::Changed
        },
        Found::Unreadable => DeleteStep::Fail,
        Found::Link { .. } | Found::File { .. } => DeleteStep::Remove,
    }
}

/// Decides what is done with a destination directory that is to go. Something
/// else in its place goes too.
pub fn delete_dir_step(e: &ManifestDeleteDirEntry, found: &Found) -> (r: DeleteStep)
    ensures
        r == delete_dir_step_of(*e, *found),
{
    match found {
        Found::Unreachable => DeleteStep::Gone,
        Found::Missing => DeleteStep::Gone,
        Found::Directory { dev, ino } => if *dev == e.dev && *ino == e.ino {
            DeleteStep::Remove
        } else {
            DeleteStep::Changed
        },
        Found::Unreadable => DeleteStep::Fail,
        Found::Link { .. } => DeleteStep::Remove,
        Found::File { .. } => DeleteStep::Remove,
    }
}

/// The bytes of the files that a synchronisation deletes.
pub open spec fn delete_bytes(files: Seq<ManifestDeleteEntry>) -> nat
    decreases files.len(),
{
    if files.len() == 0 {
        0
    } else {
        delete_bytes(files.drop_last()) + files.last().size as nat
    }
}

proof fn lemma_delete_bytes_grow(files: Seq<ManifestDeleteEntry>, i: int)
    requires
        0 <= i <= files.len(),
    ensures
        delete_bytes(files.take(i)) <= delete_bytes(files),
    decreases files.len() - i,
{
    if i < files.len() {
        lemma_delete_bytes_grow(files, i + 1);
        assert(files.take(i + 1).drop_last() == files.take(i));
    } else {
        assert(files.take(i) == files);
    }
}

/// Adds up the files that a synchronisation deletes, if the sum fits in 64
/// bits.
pub fn sync_delete_bytes(files: &Vec<ManifestDeleteEntry>) -> (r: Option<u64>)
    ensures
        r == (if delete_bytes(files@) <= u64::MAX {
            Some(delete_bytes(files@) as u64)
        } else {
            None
        }),
{
    let mut sum: u64 = 0;
    let mut i: usize = 0;
    assert(files@.take(0) == Seq::<ManifestDeleteEntry>::empty());
    while i < files.len()
        invariant
            i <= files@.len(),
            sum == delete_bytes(files@.take(i as int)),
        decreases files@.len() - i,
    {
        proof {
            assert(files@.take(i + 1).drop_last() == files@.take(i as int));
            lemma_delete_bytes_grow(files@, i + 1);
        }
        match sum.checked_add(files[i].size) {
            Some(n) => {
                sum = n;
            },
            None => {
                return None;
            },
        }
        i = i + 1;
    }
    assert(files@.take(files@.len() as int) == files@);
    Some(sum)
}

/// What is known of a source file that may be removed.
#[derive(Clone, Copy, Debug)]
pub struct SourceFacts {
    pub dev: u64,
    pub ino: u64,
    pub size: u64,
    pub mtime: Option<i128>,
}

/// Whether a source file is still what was planned. A link is known by its
/// inode alone.
pub open spec fn is_unchanged(e: ManifestFileEntry, f: SourceFacts) -> bool {
    f.dev == e.dev && f.ino == e.ino && (e.is_symlink || f.size == e.size && (e.mtime is None
        || f.mtime == e.mtime))
}

/// Tests whether a source file is still what was planned.
pub fn source_unchanged(e: &ManifestFileEntry, f: SourceFacts) -> (r: bool)
    ensures
        r == is_unchanged(*e, f),
{
    let same_time = match (e.mtime, f.mtime) {
        (None, _) => true,
        (Some(a), Some(b)) => a == b,
        (Some(_), None) => false,
    };
    f.dev == e.dev && f.ino == e.ino && (e.is_symlink || (f.size == e.size && same_time))
}

/// What is known of a file or link before it is compared.
#[derive(Clone, Copy, Debug, PartialEq, Eq, Structural)]
pub struct CompareFacts {
    pub is_link: bool,
    pub is_file: bool,
    pub size: u64,
}

/// How a source is compared with what stands at the destination.
#[derive(Clone, Copy, Debug, PartialEq, Eq, Structural)]
pub enum Arrival {
    /// It has not arrived, whatever either holds.
    No,
    /// It has, if the links lead to the same place.
    CompareLinks,
    /// It has, if the contents are equal.
    CompareContents,
}

/// How two files or links are compared: where one is a link, as links, and else by
/// what they hold, if that can be equal.
pub open spec fn arrival_of(source: Option<CompareFacts>, there: Option<CompareFacts>) -> Arrival {
    match (source, there) {
        (Some(a), Some(b)) => if a.is_link || b.is_link {
            Arrival::CompareLinks
        } else if a.is_file && b.is_file && a.size == b.size {
            Arrival::CompareContents
        } else {
            Arrival::No
        },
        _ => Arrival::No,
    }
}

/// Finds how to tell whether a source has arrived.
pub fn judge_arrival(source: Option<CompareFacts>, there: Option<CompareFacts>) -> (r: Arrival)
    ensures
        r == arrival_of(source, there),
{
    match (source, there) {
        (Some(a), Some(b)) => if a.is_link || b.is_link {
            Arrival::CompareLinks
        } else if a.is_file && b.is_file && a.size == b.size {
            Arrival::CompareContents
        } else {
            Arrival::No
        },
        _ => Arrival::No,
    }
}

/// How the removal of one file at its source counts: not at all where it did not
/// arrive, as a failure where it stayed, and else with its size, a link with none.
pub open spec fn after_removal(
    total: DeleteCleanupOutcome,
    arrived: bool,
    removed: bool,
    is_link: bool,
    size: u64,
) -> DeleteCleanupOutcome {
    if !arrived {
        total
    } else if !removed {
        DeleteCleanupOutcome { success: false, ..total }
    } else {
        DeleteCleanupOutcome {
            files: domain::sat_add(total.files, 1),
            bytes: domain::sat_add(
                total.bytes,
                if is_link {
                    0
                } else {
                    size
                },
            ),
            ..total
        }
    }
}

/// Counts the removal of one file at its source.
pub fn count_removal(
    total: &mut DeleteCleanupOutcome,
    arrived: bool,
    removed: bool,
    is_link: bool,
    size: u64,
)
    ensures
        *final(total) == after_removal(*old(total), arrived, removed, is_link, size),
{
    if arrived {
        if removed {
            let bytes: u64 = if is_link {
                0
            } else {
                size
            };
            count_deleted(total, bytes);
        } else {
            total.success = false;
        }
    }
}

/// How the parts of a cleanup went.
#[derive(Clone, Copy, Debug, PartialEq, Eq, Structural)]
pub struct CleanupParts {
    /// All that was to be deleted is.
    pub deleted: bool,
    /// The directories are as they ought to be: removed by a move, with their times
    /// by a synchronisation.
    pub directories: bool,
    pub flushed: bool,
}

/// Tells whether a cleanup went well: every part of it did.
pub fn cleanup_succeeded(p: CleanupParts) -> (r: bool)
    ensures
        r == (p.deleted && p.directories && p.flushed),
{
    p.deleted && p.directories && p.flushed
}

/// Tells whether the deletions of a synchronisation are shown as complete: the times
/// of the directories do not matter.
pub fn deletions_complete(p: CleanupParts) -> (r: bool)
    ensures
        r == (p.deleted && p.flushed),
{
    p.deleted && p.flushed
}

/// What a move does with a source file.
#[derive(Clone, Copy, Debug, PartialEq, Eq, Structural)]
pub enum PruneStep {
    /// It stays.
    Keep,
    /// It stays, and the clean-up has failed.
    Missed,
    Remove,
}

/// What a move does with a listed source file. `facts` is `None` where the
/// file cannot be looked at; `arrived` tells whether its destination has the
/// same contents.
pub open spec fn prune_step_of(
    e: ManifestFileEntry,
    facts: Option<SourceFacts>,
    arrived: bool,
) -> PruneStep {
    match facts {
        None => PruneStep::Missed,
        Some(f) => if is_unchanged(e, f) && arrived {
            PruneStep::Remove
        } else {
            PruneStep::Keep
        },
    }
}

/// Decides what a move does with a listed source file.
pub fn prune_step(e: &ManifestFileEntry, facts: Option<SourceFacts>, arrived: bool) -> (r:
    PruneStep)
    ensures
        r == prune_step_of(*e, facts, arrived),
{
    match facts {
        None => PruneStep::Missed,
        Some(f) => if source_unchanged(e, f) && arrived {
            PruneStep::Remove
        } else {
            PruneStep::Keep
        },
    }
}

/// A move removes a source file only if it is unchanged and its contents have
/// arrived.
pub proof fn law_nothing_is_removed_unless_it_arrived(
    e: ManifestFileEntry,
    facts: Option<SourceFacts>,
    arrived: bool,
)
    requires
        prune_step_of(e, facts, arrived) == PruneStep::Remove,
    ensures
        arrived,
        facts is Some && is_unchanged(e, facts->0),
{
}

/// A source file and its place in the destination.
#[derive(Debug)]
pub struct PruneCandidate {
    pub source: String,
    pub destination: String,
    pub size: u64,
}

/// The model of a candidate.
pub struct CandidateModel {
    pub source: Seq<char>,
    pub destination: Seq<char>,
    pub size: u64,
}

pub open spec fn candidates_model(v: Seq<PruneCandidate>) -> Seq<CandidateModel> {
    v.map_values(
        |c: PruneCandidate|
            CandidateModel { source: c.source@, destination: c.destination@, size: c.size },
    )
}

/// The roots of a directory move.
pub struct MoveRoots {
    pub source: Seq<char>,
    pub destination: Seq<char>,
    pub include_root: bool,
    pub base: Seq<char>,
    pub exclude: Option<Seq<char>>,
}

/// Whether a listed file may be removed: it has a name, is not left out, and
/// is not its own destination.
pub open spec fn is_candidate(rel: Seq<char>, m: MoveRoots) -> bool {
    rel.len() > 0 && !(m.exclude is Some && paths::matches_prefix(rel, m.exclude->0))
        && !paths::same_path(
        paths::joined_path(m.source, rel),
        paths::dest_path(m.include_root, m.base, rel, m.destination),
    )
}

/// The listed files that may be removed.
pub open spec fn candidates_of(files: Seq<ManifestFileEntry>, m: MoveRoots) -> Seq<CandidateModel>
    decreases files.len(),
{
    if files.len() == 0 {
        Seq::empty()
    } else {
        let before = candidates_of(files.drop_last(), m);
        let e = files.last();
        if is_candidate(e.rel@, m) {
            before.push(
                CandidateModel {
                    source: paths::joined_path(m.source, e.rel@),
                    destination: paths::dest_path(
                        m.include_root,
                        m.base,
                        e.rel@,
                        m.destination,
                    ),
                    size: e.size,
                },
            )
        } else {
            before
        }
    }
}

/// The roots of a move from `source` to `destination`, as their arguments are
/// written: a source without a trailing slash keeps its name.
pub open spec fn move_roots(
    source: Seq<char>,
    destination: Seq<char>,
    contents: bool,
    exclude: Option<Seq<char>>,
) -> MoveRoots {
    let root = text::trim_end_char(source, '/');
    MoveRoots {
        source: root,
        destination: text::trim_end_char(destination, '/'),
        include_root: !contents && !(source.len() > 0 && source.last() == '/'),
        base: match paths::last_name(root) {
            Some(n) => n,
            None => Seq::empty(),
        },
        exclude,
    }
}

/// Lists the files of a manifest that may be removed.
pub fn prune_candidates(
    files: &Vec<ManifestFileEntry>,
    source: &str,
    destination: &str,
    contents: bool,
    exclude: Option<&str>,
) -> (r: Vec<PruneCandidate>)
    ensures
        candidates_model(r@) == candidates_of(
            files@,
            move_roots(
                source@,
                destination@,
                contents,
                match exclude {
                    Some(s) => Some(s@),
                    None => None,
                },
            ),
        ),
{
    let chars = text::to_chars(source);
    let slash = chars.len() > 0 && chars[chars.len() - 1] == '/';
    let root = text::from_chars(text::trim_end(chars.as_slice(), '/').as_slice());
    let target = text::from_chars(
        text::trim_end(text::to_chars(destination).as_slice(), '/').as_slice(),
    );
    let base = match paths::file_name(root.as_str()) {
        Some(n) => n,
        None => {
            let n = String::new();
            assert(n@ == Seq::<char>::empty());
            n
        },
    };
    let include_root = !contents && !slash;
    let ghost m = move_roots(
        source@,
        destination@,
        contents,
        match exclude {
            Some(s) => Some(s@),
            None => None,
        },
    );
    let mut out: Vec<PruneCandidate> = Vec::new();
    let mut i: usize = 0;
    assert(files@.take(0) == Seq::<ManifestFileEntry>::empty());
    assert(candidates_model(out@) == candidates_of(files@.take(0), m));
    while i < files.len()
        invariant
            i <= files@.len(),
            m.source == root@,
            m.destination == target@,
            m.base == base@,
            m.include_root == include_root,
            m.exclude == (match exclude {
                Some(s) => Some(s@),
                None => None,
            }),
            candidates_model(out@) == candidates_of(files@.take(i as int), m),
        decreases files@.len() - i,
    {
        assert(files@.take(i + 1).drop_last() == files@.take(i as int));
        let e = &files[i];
        let rel = e.rel.as_str();
        let left_out = match exclude {
            Some(prefix) => paths::rel_matches_prefix(rel, prefix),
            None => false,
        };
        if !rel.is_empty() && !left_out {
            let from = paths::join_path(root.as_str(), rel);
            let to = paths::map_dir_dest_path(include_root, base.as_str(), rel, target.as_str());
            if !paths::paths_equal(from.as_str(), to.as_str()) {
                let ghost before = out@;
                let c = PruneCandidate { source: from, destination: to, size: e.size };
                out.push(c);
                assert(candidates_model(out@) == candidates_model(before).push(
                    CandidateModel { source: from@, destination: to@, size: e.size },
                ));
            }
        }
        i = i + 1;
    }
    assert(files@.take(files@.len() as int) == files@);
    out
}

/// The command line that removes files.
pub open spec fn removal_command(paths: Seq<Seq<char>>) -> Seq<Seq<char>> {
    seq!["rm"@, "-f"@, "--"@] + paths
}

/// Writes the command lines that remove files, at most 256 at a time.
pub fn removal_commands(list: &Vec<String>) -> (r: Vec<Vec<String>>)
    ensures
        r@.len() == (list@.len() + 255) / 256,
        forall|k: int|
            0 <= k < r@.len() ==> text::texts(#[trigger] r@[k]@) == removal_command(
                text::texts(list@).subrange(k * 256, if k * 256 + 256 <= list@.len() {
                    k * 256 + 256
                } else {
                    list@.len() as int
                }),
            ),
{
    let ghost all = text::texts(list@);
    let mut out: Vec<Vec<String>> = Vec::new();
    let mut start: usize = 0;
    while start < list.len()
        invariant
            start <= list@.len(),
            all == text::texts(list@),
            start == out@.len() * 256 || start == list@.len(),
            out@.len() == (start + 255) / 256,
            forall|k: int|
                0 <= k < out@.len() ==> text::texts(#[trigger] out@[k]@) == removal_command(
                    all.subrange(k * 256, if k * 256 + 256 <= list@.len() {
                        k * 256 + 256
                    } else {
                        list@.len() as int
                    }),
                ),
        decreases list@.len() - start,
    {
        let end: usize = if list.len() - start > 256 {
            start + 256
        } else {
            list.len()
        };
        let mut cmd: Vec<String> = Vec::new();
        cmd.push(text::copy("rm"));
        cmd.push(text::copy("-f"));
        cmd.push(text::copy("--"));
        assert(text::texts(cmd@) == removal_command(all.subrange(start as int, start as int)));
        let mut i: usize = start;
        while i < end
            invariant
                start <= i <= end <= list@.len(),
                all == text::texts(list@),
                text::texts(cmd@) == removal_command(all.subrange(start as int, i as int)),
            decreases end - i,
        {
            let ghost before = cmd@;
            cmd.push(list[i].clone());
            assert(text::texts(cmd@) == text::texts(before).push(list@[i as int]@));
            assert(all.subrange(start as int, i + 1) == all.subrange(start as int, i as int).push(
                all[i as int],
            ));
            assert(text::texts(cmd@) == removal_command(all.subrange(start as int, i + 1)));
            i = i + 1;
        }
        let ghost k = out@.len() as int;
        assert(start == k * 256);
        out.push(cmd);
        start = end;
    }
    out
}

/// The command line that removes the empty directories below a path.
pub open spec fn find_command(root: Seq<char>, remove_root: bool) -> Seq<Seq<char>> {
    seq!["find"@, root] + (if remove_root {
        Seq::empty()
    } else {
        seq!["-mindepth"@, "1"@]
    }) + seq!["-depth"@, "-type"@, "d"@, "-empty"@, "-delete"@]
}

/// Writes the command line that removes the empty directories below a path.
pub fn empty_dirs_command(root: &str, remove_root: bool) -> (r: Vec<String>)
    ensures
        text::texts(r@) == find_command(root@, remove_root),
{
    let mut out: Vec<String> = Vec::new();
    text::push_text(&mut out, "find");
    text::push_text(&mut out, root);
    if !remove_root {
        text::push_text(&mut out, "-mindepth");
        text::push_text(&mut out, "1");
    }
    text::push_text(&mut out, "-depth");
    text::push_text(&mut out, "-type");
    text::push_text(&mut out, "d");
    text::push_text(&mut out, "-empty");
    text::push_text(&mut out, "-delete");
    assert(text::texts(out@) == find_command(root@, remove_root));
    out
}

/// The directories of a manifest that a move tries to remove: the last first,
/// so that children come before parents, and without those left out.
pub open spec fn dir_removals_of(
    dirs: Seq<ManifestDir>,
    root: Seq<char>,
    exclude: Option<Seq<char>>,
) -> Seq<Seq<char>>
    decreases dirs.len(),
{
    if dirs.len() == 0 {
        Seq::empty()
    } else {
        let rest = dir_removals_of(dirs.drop_last(), root, exclude);
        let rel = dirs.last().rel@;
        if exclude is Some && paths::matches_prefix(rel, exclude->0) {
            rest
        } else {
            seq![paths::joined_path(root, rel)] + rest
        }
    }
}

/// Lists the directories that a move tries to remove, in order.
pub fn directory_removals(
    m: &TransferManifest,
    root: &str,
    remove_root: bool,
    exclude: Option<&str>,
) -> (r: Vec<String>)
    ensures
        text::texts(r@) == dir_removals_of(
            m.dirs@,
            root@,
            match exclude {
                Some(s) => Some(s@),
                None => None,
            },
        ) + (if remove_root {
            seq![root@]
        } else {
            Seq::empty()
        }),
{
    let ghost left_out = match exclude {
        Some(s) => Some(s@),
        None => None,
    };
    let ghost whole = dir_removals_of(m.dirs@, root@, left_out);
    let mut out: Vec<String> = Vec::new();
    let mut n: usize = m.dirs.len();
    assert(m.dirs@.take(n as int) == m.dirs@);
    assert(text::texts(out@) + whole == whole);
    while n > 0
        invariant
            n <= m.dirs@.len(),
            left_out == (match exclude {
                Some(s) => Some(s@),
                None => None,
            }),
            text::texts(out@) + dir_removals_of(m.dirs@.take(n as int), root@, left_out) == whole,
        decreases n,
    {
        let ghost now = m.dirs@.take(n as int);
        assert(now.drop_last() == m.dirs@.take(n - 1));
        let rel = m.dirs[n - 1].rel.as_str();
        let skip = match exclude {
            Some(prefix) => paths::rel_matches_prefix(rel, prefix),
            None => false,
        };
        if !skip {
            let ghost before = out@;
            let path = paths::join_path(root, rel);
            out.push(path);
            assert(text::texts(out@) == text::texts(before).push(path@));
            assert(text::texts(out@) + dir_removals_of(m.dirs@.take(n - 1), root@, left_out)
                == text::texts(before) + (seq![path@] + dir_removals_of(
                m.dirs@.take(n - 1),
                root@,
                left_out,
            )));
        }
        n = n - 1;
    }
    assert(text::texts(out@) == whole) by {
        assert(dir_removals_of(m.dirs@.take(0), root@, left_out) == Seq::<Seq<char>>::empty());
    }
    if remove_root {
        text::push_text(&mut out, root);
    }
    assert(text::texts(out@) == whole + (if remove_root {
        seq![root@]
    } else {
        Seq::empty()
    }));
    out
}

/// A sweep for empty directories: those still to look at, the next one last.
/// A directory is listed first, and tried for removal once its own
/// directories have been.
pub struct Sweep {
    pub pending: Vec<(String, bool)>,
    pub root: String,
    pub remove_root: bool,
}

/// The model of what a sweep has to do.
pub open spec fn pending_model(v: Seq<(String, bool)>) -> Seq<(Seq<char>, bool)> {
    v.map_values(|p: (String, bool)| (p.0@, p.1))
}

/// What a sweep does next.
#[derive(Debug)]
pub enum SweepStep {
    /// List a directory and hand its directories in.
    List { dir: String },
    /// Remove a directory if it is empty.
    Try { dir: String },
    /// The root stays.
    Spare,
    Done,
}

impl Sweep {
    /// Begins a sweep below a path.
    pub fn new(root: &str, remove_root: bool) -> (r: Sweep)
        ensures
            r.root@ == root@,
            r.remove_root == remove_root,
            pending_model(r.pending@) == seq![(root@, false)],
    {
        let mut pending: Vec<(String, bool)> = Vec::new();
        let top = text::copy(root);
        pending.push((top.clone(), false));
        assert(pending_model(pending@) == seq![(root@, false)]);
        Sweep { pending, root: top, remove_root }
    }

    /// Takes the next step off. A listed directory waits for its own
    /// directories; the root is left alone unless it is to go.
    pub fn next(&mut self) -> (r: SweepStep)
        ensures
            final(self).root == old(self).root,
            final(self).remove_root == old(self).remove_root,
            ({
                let before = pending_model(old(self).pending@);
                let after = pending_model(final(self).pending@);
                let spared = !old(self).remove_root && paths::same_path(
                    before.last().0,
                    old(self).root@,
                );
                match r {
                    SweepStep::List { dir } => before.len() > 0 && before.last() == (dir@, false)
                        && after == before.drop_last().push((dir@, true)),
                    SweepStep::Try { dir } => before.len() > 0 && before.last() == (dir@, true)
                        && !spared && after == before.drop_last(),
                    SweepStep::Spare => before.len() > 0 && before.last().1 && spared && after
                        == before.drop_last(),
                    SweepStep::Done => before.len() == 0 && after.len() == 0,
                }
            }),
    {
        let ghost held = self.pending@;
        match self.pending.pop() {
            None => SweepStep::Done,
            Some((dir, visited)) => {
                assert(pending_model(held).last() == (dir@, visited));
                assert(pending_model(self.pending@) == pending_model(held).drop_last());
                if !visited {
                    let ghost rest = self.pending@;
                    let name = dir.clone();
                    self.pending.push((dir, true));
                    assert(pending_model(self.pending@) == pending_model(rest).push((name@, true)));
                    SweepStep::List { dir: name }
                } else if self.remove_root || !paths::paths_equal(
                    dir.as_str(),
                    self.root.as_str(),
                ) {
                    SweepStep::Try { dir }
                } else {
                    SweepStep::Spare
                }
            },
        }
    }

    /// Takes in the directories of the one that was listed last.
    pub fn listed(&mut self, dirs: Vec<String>)
        ensures
            final(self).root == old(self).root,
            final(self).remove_root == old(self).remove_root,
            pending_model(final(self).pending@) == pending_model(old(self).pending@)
                + text::texts(dirs@).map_values(|d: Seq<char>| (d, false)),
    {
        let ghost start = pending_model(self.pending@);
        let ghost all = text::texts(dirs@);
        let mut i: usize = 0;
        assert(all.take(0).map_values(|d: Seq<char>| (d, false)) == Seq::<(Seq<char>, bool)>::empty());
        assert(pending_model(self.pending@) == start + all.take(0).map_values(
            |d: Seq<char>| (d, false),
        ));
        while i < dirs.len()
            invariant
                i <= dirs@.len(),
                all == text::texts(dirs@),
                self.root == old(self).root,
                self.remove_root == old(self).remove_root,
                pending_model(self.pending@) == start + all.take(i as int).map_values(
                    |d: Seq<char>| (d, false),
                ),
            decreases dirs@.len() - i,
        {
            let ghost before = self.pending@;
            self.pending.push((dirs[i].clone(), false));
            assert(pending_model(self.pending@) == pending_model(before).push(
                (dirs@[i as int]@, false),
            ));
            assert(all.take(i + 1).map_values(|d: Seq<char>| (d, false)) == all.take(
                i as int,
            ).map_values(|d: Seq<char>| (d, false)).push((all[i as int], false)));
            i = i + 1;
        }
        assert(all.take(all.len() as int) == all);
    }
}

/// The directories above a path, given by its components: from the first `n`
/// components upwards, and below the root.
pub open spec fn parents_from(parts: Seq<Seq<char>>, root: Seq<Seq<char>>, n: int) -> Seq<Seq<char>>
    decreases n + 1,
{
    if n < 0 || n > parts.len() || parts.take(n) == root || n == 0 && parts.len() > 0 && parts[0]
        == "/"@ {
        Seq::empty()
    } else {
        seq![paths::rendered(parts.take(n))] + parents_from(parts, root, n - 1)
    }
}

/// Lists the directories between a path and a root above it, the nearest
/// first.
pub fn parents_below(path: &str, root: &str) -> (r: Vec<String>)
    ensures
        text::texts(r@) == parents_from(
            paths::comps(path@),
            paths::comps(root@),
            paths::comps(path@).len() - 1,
        ),
{
    let list = paths::components(text::to_chars(path).as_slice());
    let ghost parts = text::rows(list@);
    let ghost top = paths::comps(root@);
    let mut out: Vec<String> = Vec::new();
    let mut left: usize = list.len();
    let ghost whole = parents_from(parts, top, parts.len() - 1);
    assert(text::texts(out@) + whole == whole);
    while left > 0
        invariant
            left <= list@.len(),
            parts == text::rows(list@),
            parts == paths::comps(path@),
            top == paths::comps(root@),
            whole == parents_from(parts, top, parts.len() - 1),
            text::texts(out@) + parents_from(parts, top, left - 1) == whole,
        decreases left,
    {
        let n: usize = left - 1;
        assert(parts[0] == list@[0]@);
        let head = paths::between(list.as_slice(), 0, n);
        assert(parts.subrange(0, n as int) == parts.take(n as int));
        if same_parts(&head, root) || (n == 0 && text::is_text(list[0].as_slice(), "/")) {
            assert(parents_from(parts, top, n as int) == Seq::<Seq<char>>::empty());
            assert(text::texts(out@) == whole);
            return out;
        }
        let ghost before = out@;
        let dir = text::from_chars(paths::render(head.as_slice()).as_slice());
        out.push(dir);
        assert(text::texts(out@) == text::texts(before).push(dir@));
        assert(text::texts(out@) + parents_from(parts, top, n - 1) == text::texts(before) + (
        seq![dir@] + parents_from(parts, top, n - 1)));
        left = n;
    }
    assert(parents_from(parts, top, -1) == Seq::<Seq<char>>::empty());
    assert(text::texts(out@) == whole);
    out
}

fn same_parts(head: &Vec<Vec<char>>, path: &str) -> (r: bool)
    ensures
        r == (text::rows(head@) == paths::comps(path@)),
{
    let other = paths::components(text::to_chars(path).as_slice());
    let ghost a = text::rows(head@);
    let ghost b = text::rows(other@);
    assert(a.len() == head@.len() && b.len() == other@.len());
    if head.len() != other.len() {
        return false;
    }
    let mut i: usize = 0;
    while i < head.len()
        invariant
            i <= head@.len(),
            head@.len() == other@.len(),
            a == text::rows(head@),
            b == text::rows(other@),
            b == paths::comps(path@),
            forall|k: int| 0 <= k < i ==> a[k] == b[k],
        decreases head@.len() - i,
    {
        assert(a[i as int] == head@[i as int]@ && b[i as int] == other@[i as int]@);
        if !text::same(head[i].as_slice(), other[i].as_slice()) {
            return false;
        }
        i = i + 1;
    }
    assert(a == b);
    true
}

/// Whether the way to an entry leads on.
#[derive(Clone, Copy, Debug, PartialEq, Eq, Structural)]
pub enum Reach {
    Continue,
    /// The entry cannot exist.
    Unreachable,
    /// Nothing is removed through a link.
    Refuse,
    Fail,
}

/// Whether the way to an entry leads on.
pub open spec fn reach_of(kind: AncestorKind) -> Reach {
    match kind {
        AncestorKind::Link => Reach::Refuse,
        AncestorKind::Directory => Reach::Continue,
        AncestorKind::Other | AncestorKind::Missing => Reach::Unreachable,
        AncestorKind::Unknown => Reach::Fail,
    }
}

/// Judges a directory on the way to an entry that is to go.
pub fn judge_reach(kind: AncestorKind) -> (r: Reach)
    ensures
        r == reach_of(kind),
{
    match kind {
        AncestorKind::Link => Reach::Refuse,
        AncestorKind::Directory => Reach::Continue,
        AncestorKind::Other => Reach::Unreachable,
        AncestorKind::Missing => Reach::Unreachable,
        AncestorKind::Unknown => Reach::Fail,
    }
}

/// What a synchronisation finds in the place of a file that is to go tells what it does:
/// it removes the file exactly when it is the planned inode with the planned size, and
/// with the planned time where that was known. A link that was planned is known by its
/// target alone, and nothing else in its place goes.
pub proof fn law_removal_needs_what_was_planned(e: ManifestDeleteEntry, found: Found)
    ensures
        ({
            let step = delete_step_of(e, found);
            match found {
                Found::Unreachable => step is Gone,
                Found::Missing => step is Gone,
                Found::Directory { .. } => step is ChangedType,
                Found::Unreadable => step is Fail,
                Found::File { identity } => {
                    &&& step is Remove || step is Changed
                    &&& step is Remove <==> !e.is_symlink && identity.dev == e.dev && identity.ino
                        == e.ino && identity.size == e.size && (e.mtime is Some ==> identity.mtime
                        == e.mtime)
                },
                Found::Link { identity, target } => {
                    &&& step is Remove || step is Changed
                    &&& e.is_symlink ==> (step is Remove <==> target is Some && e.link_target is Some
                        && target->0@ == e.link_target->0@)
                    &&& !e.is_symlink ==> (step is Remove <==> identity.dev == e.dev && identity.ino
                        == e.ino && identity.size == e.size && (e.mtime is Some ==> identity.mtime
                        == e.mtime))
                },
            }
        }),
{
}

/// A directory goes only if it is the planned inode; a file or link in its place goes.
pub proof fn law_only_the_planned_directory_goes(e: ManifestDeleteDirEntry, found: Found)
    ensures
        ({
            let step = delete_dir_step_of(e, found);
            &&& found matches Found::Directory { dev, ino } ==> (step is Remove <==> dev == e.dev
                && ino == e.ino)
            &&& found matches Found::Directory { dev, ino } ==> step is Remove || step is Changed
            &&& found is File || found is Link ==> step is Remove
            &&& found is Missing || found is Unreachable <==> step is Gone
            &&& found is Unreadable <==> step is Fail
        }),
{
}

/// The bytes to delete grow by the size of every file, and are none without files.
pub proof fn law_every_deletion_counts(files: Seq<ManifestDeleteEntry>, e: ManifestDeleteEntry)
    ensures
        delete_bytes(files.push(e)) == delete_bytes(files) + e.size,
        delete_bytes(Seq::empty()) == 0,
{
    assert(files.push(e).drop_last() == files);
}

/// A move removes a source file exactly when it has arrived and is the planned inode, and,
/// unless it is a link, with the planned size, and the planned time where that was known.
/// One that cannot be looked at stays, and is missed.
pub proof fn law_a_source_goes_exactly_when_it_arrived_unchanged(
    e: ManifestFileEntry,
    facts: Option<SourceFacts>,
    arrived: bool,
)
    ensures
        ({
            let step = prune_step_of(e, facts, arrived);
            &&& facts is None <==> step is Missed
            &&& step is Remove <==> arrived && facts is Some && facts->0.dev == e.dev
                && facts->0.ino == e.ino && (!e.is_symlink ==> facts->0.size == e.size && (
            e.mtime is Some ==> facts->0.mtime == e.mtime))
        }),
{
}

/// A source has arrived for sure only where both ends are there: as links if either is
/// one, and by contents only for two regular files of one size.
pub proof fn law_arrival_needs_both_ends(source: Option<CompareFacts>, there: Option<CompareFacts>)
    ensures
        ({
            let r = arrival_of(source, there);
            &&& source is None || there is None ==> r is No
            &&& source is Some && there is Some && (source->0.is_link || there->0.is_link)
                <==> r is CompareLinks
            &&& r is CompareContents <==> source is Some && there is Some && !source->0.is_link
                && !there->0.is_link && source->0.is_file && there->0.is_file && source->0.size
                == there->0.size
        }),
{
}

/// What was not removed does not count as removed: only a file that has arrived and is
/// gone adds to the total, with its size unless it is a link; one that has arrived and
/// stayed makes the clean-up fail, and nothing makes it succeed again.
pub proof fn law_removals_count_what_went(
    total: DeleteCleanupOutcome,
    arrived: bool,
    removed: bool,
    is_link: bool,
    size: u64,
)
    ensures
        ({
            let after = after_removal(total, arrived, removed, is_link, size);
            &&& arrived && removed && total.files < u64::MAX ==> after.files == total.files + 1
            &&& arrived && removed && !is_link && total.bytes + size <= u64::MAX ==> after.bytes
                == total.bytes + size
            &&& is_link || !arrived || !removed ==> after.bytes == total.bytes
            &&& !arrived || !removed ==> after.files == total.files
            &&& after.success <==> total.success && (arrived ==> removed)
        }),
{
}

/// The files that a move may remove are listed files, each with its place in the
/// destination and its size: none that is left out, none without a name, and none that is
/// its own destination.
pub proof fn law_candidates_are_listed_files(
    files: Seq<ManifestFileEntry>,
    m: MoveRoots,
    k: int,
) -> (i: int)
    requires
        0 <= k < candidates_of(files, m).len(),
    ensures
        0 <= i < files.len(),
        ({
            let c = candidates_of(files, m)[k];
            let rel = files[i].rel@;
            &&& c.source == paths::joined_path(m.source, rel)
            &&& c.destination == paths::dest_path(m.include_root, m.base, rel, m.destination)
            &&& c.size == files[i].size
            &&& rel.len() > 0
            &&& !paths::same_path(c.source, c.destination)
            &&& m.exclude matches Some(x) ==> rel != x && !text::begins(rel, x.push('/'))
        }),
    decreases files.len(),
{
    let before = candidates_of(files.drop_last(), m);
    if k < before.len() {
        law_candidates_are_listed_files(files.drop_last(), m, k)
    } else {
        files.len() - 1
    }
}

/// Every listed file with a name that is neither left out nor its own destination may be
/// removed.
pub proof fn law_every_such_file_is_a_candidate(
    files: Seq<ManifestFileEntry>,
    m: MoveRoots,
    i: int,
) -> (k: int)
    requires
        0 <= i < files.len(),
        files[i].rel@.len() > 0,
        m.exclude matches Some(x) ==> files[i].rel@ != x && !text::begins(files[i].rel@, x.push('/')),
        !paths::same_path(
            paths::joined_path(m.source, files[i].rel@),
            paths::dest_path(m.include_root, m.base, files[i].rel@, m.destination),
        ),
    ensures
        0 <= k < candidates_of(files, m).len(),
        candidates_of(files, m)[k].source == paths::joined_path(m.source, files[i].rel@),
        candidates_of(files, m)[k].destination == paths::dest_path(
            m.include_root,
            m.base,
            files[i].rel@,
            m.destination,
        ),
        candidates_of(files, m)[k].size == files[i].size,
    decreases files.len(),
{
    if i < files.len() - 1 {
        law_every_such_file_is_a_candidate(files.drop_last(), m, i)
    } else {
        candidates_of(files, m).len() - 1
    }
}

/// A source that is written without a trailing slash keeps its name at the destination,
/// unless its contents were asked for; one that is written with a slash does not.
pub proof fn law_a_trailing_slash_means_the_contents(
    source: Seq<char>,
    destination: Seq<char>,
    contents: bool,
    exclude: Option<Seq<char>>,
)
    requires
        source.len() > 0,
    ensures
        ({
            let m = move_roots(source, destination, contents, exclude);
            &&& m.include_root <==> !contents && source.last() != '/'
            &&& m.exclude == exclude
            &&& source.last() != '/' ==> m.source == source && m.base == (match paths::last_name(
                source,
            ) {
                Some(n) => n,
                None => Seq::empty(),
            })
            &&& destination.len() > 0 && destination.last() != '/' ==> m.destination == destination
        }),
{
}

/// A command line that removes files reads none of them as an option: all of them stand
/// behind the mark that ends the options, in order.
pub proof fn law_paths_are_not_read_as_options(list: Seq<Seq<char>>)
    ensures
        removal_command(list).len() == list.len() + 3,
        removal_command(list)[0] == "rm"@,
        removal_command(list)[2] == "--"@,
        removal_command(list).skip(3) == list,
{
    assert(removal_command(list).skip(3) == list);
}

/// The sweep of empty directories takes only directories, only empty ones, children first,
/// and spares the root unless it is to go.
pub proof fn law_only_empty_directories_are_swept(root: Seq<char>, remove_root: bool)
    ensures
        ({
            let c = find_command(root, remove_root);
            &&& c[0] == "find"@ && c[1] == root
            &&& c.last() == "-delete"@ && c[c.len() - 2] == "-empty"@
            &&& c[c.len() - 4] == "-type"@ && c[c.len() - 3] == "d"@
            &&& c[c.len() - 5] == "-depth"@
            &&& remove_root ==> c.len() == 7
            &&& !remove_root ==> c.len() == 9 && c[2] == "-mindepth"@ && c[3] == "1"@
        }),
{
}

/// A move tries the directories from the last listed to the first, which is children
/// first where parents are listed first.
pub proof fn law_directories_go_in_reverse(dirs: Seq<ManifestDir>, root: Seq<char>)
    ensures
        dir_removals_of(dirs, root, None) == Seq::new(
            dirs.len(),
            |i: int| paths::joined_path(root, dirs[dirs.len() - 1 - i].rel@),
        ),
    decreases dirs.len(),
{
    let all = Seq::new(
        dirs.len(),
        |i: int| paths::joined_path(root, dirs[dirs.len() - 1 - i].rel@),
    );
    if dirs.len() > 0 {
        law_directories_go_in_reverse(dirs.drop_last(), root);
    }
    assert(dir_removals_of(dirs, root, None) =~= all);
}

/// A directory that is left out is not tried.
pub proof fn law_left_out_directories_stay(
    dirs: Seq<ManifestDir>,
    root: Seq<char>,
    exclude: Seq<char>,
    k: int,
) -> (i: int)
    requires
        0 <= k < dir_removals_of(dirs, root, Some(exclude)).len(),
    ensures
        0 <= i < dirs.len(),
        dir_removals_of(dirs, root, Some(exclude))[k] == paths::joined_path(root, dirs[i].rel@),
        dirs[i].rel@ != exclude,
        !text::begins(dirs[i].rel@, exclude.push('/')),
    decreases dirs.len(),
{
    let rest = dir_removals_of(dirs.drop_last(), root, Some(exclude));
    let all = dir_removals_of(dirs, root, Some(exclude));
    if paths::matches_prefix(dirs.last().rel@, exclude) {
        law_left_out_directories_stay(dirs.drop_last(), root, exclude, k)
    } else if k == 0 {
        dirs.len() - 1
    } else {
        assert(all[k] == rest[k - 1]);
        law_left_out_directories_stay(dirs.drop_last(), root, exclude, k - 1)
    }
}

/// A directory that is not left out is tried.
pub proof fn law_other_directories_are_tried(
    dirs: Seq<ManifestDir>,
    root: Seq<char>,
    exclude: Seq<char>,
    i: int,
) -> (k: int)
    requires
        0 <= i < dirs.len(),
        dirs[i].rel@ != exclude,
        !text::begins(dirs[i].rel@, exclude.push('/')),
    ensures
        0 <= k < dir_removals_of(dirs, root, Some(exclude)).len(),
        dir_removals_of(dirs, root, Some(exclude))[k] == paths::joined_path(root, dirs[i].rel@),
    decreases dirs.len(),
{
    let rest = dir_removals_of(dirs.drop_last(), root, Some(exclude));
    let all = dir_removals_of(dirs, root, Some(exclude));
    if i == dirs.len() - 1 {
        0
    } else {
        let k: int = law_other_directories_are_tried(dirs.drop_last(), root, exclude, i);
        if paths::matches_prefix(dirs.last().rel@, exclude) {
            k
        } else {
            assert(all[k + 1] == rest[k]);
            k + 1
        }
    }
}

/// The directories between a path and a root above it are the parts of the path from the
/// nearest on, down to but without the root.
pub proof fn law_parents_end_below_the_root(parts: Seq<Seq<char>>, r: int, n: int)
    requires
        0 < r <= n <= parts.len(),
    ensures
        parents_from(parts, parts.take(r), n) == Seq::new(
            (n - r) as nat,
            |i: int| paths::rendered(parts.take(n - i)),
        ),
    decreases n,
{
    let all = Seq::new((n - r) as nat, |i: int| paths::rendered(parts.take(n - i)));
    if n == r {
        assert(parents_from(parts, parts.take(r), n) =~= all);
    } else {
        assert(parts.take(n).len() != parts.take(r).len());
        law_parents_end_below_the_root(parts, r, n - 1);
        let rest = Seq::new((n - 1 - r) as nat, |i: int| paths::rendered(parts.take(n - 1 - i)));
        assert(seq![paths::rendered(parts.take(n))] + rest =~= all);
    }
}

/// Nothing is removed through a link, and only directories lead on.
pub proof fn law_nothing_is_removed_through_a_link(kind: AncestorKind)
    ensures
        reach_of(kind) is Continue <==> kind is Directory,
        reach_of(kind) is Refuse <==> kind is Link,
        reach_of(kind) is Unreachable <==> kind is Missing || kind is Other,
{
}

} // verus!
