//! The transfer plan for a directory or a file.

use crate::changes::{self, ChangeMap};
use crate::domain::{
    ChangeItem, ChangeKind, FileRelationBreakdown, MergeCollisionPolicy,
};
use crate::order::{self, Ranked};
use crate::paths;
use crate::policy;
use crate::scanner::{
    self, DestinationEntry, DestinationIndex, DestinationKind, WalkKind, WalkedEntry,
};
use crate::table::NameSet;
use crate::text;
use vstd::prelude::*;

verus! {

/// The number of slashes in a text.
pub open spec fn slashes(s: Seq<char>) -> nat
    decreases s.len(),
{
    if s.len() == 0 {
        0
    } else {
        slashes(s.drop_last()) + (if s.last() == '/' {
            1nat
        } else {
            0nat
        })
    }
}

/// Counts slashes.
pub fn count_slashes(s: &[char]) -> (r: usize)
    ensures
        r == slashes(s@),
{
    let mut n: usize = 0;
    let mut i: usize = 0;
    assert(s@.take(0) == Seq::<char>::empty());
    while i < s.len()
        invariant
            i <= s@.len(),
            n <= i,
            n == slashes(s@.take(i as int)),
        decreases s@.len() - i,
    {
        assert(s@.take(i + 1).drop_last() == s@.take(i as int));
        if s[i] == '/' {
            n = n + 1;
        }
        i = i + 1;
    }
    assert(s@.take(s@.len() as int) == s@);
    n
}

/// A source directory below the root.
pub struct ManifestDir {
    pub rel: String,
}

/// A file or symbolic link of the source.
pub struct ScannedFileEntry {
    pub rel: String,
    pub size: u64,
    pub is_symlink: bool,
    pub dev: u64,
    pub ino: u64,
    pub nlink: u64,
    pub mtime: Option<i128>,
    pub link_target: Option<String>,
}

/// A file or symbolic link that a plan names.
pub struct ManifestFileEntry {
    /// The text of its path below the source, which stands for the exact bytes.
    pub rel: String,
    pub size: u64,
    pub dev: u64,
    pub ino: u64,
    pub nlink: u64,
    pub is_symlink: bool,
    pub mtime: Option<i128>,
}

/// A destination file or symbolic link that a sync removes.
pub struct ManifestDeleteEntry {
    pub rel: String,
    pub size: u64,
    pub dev: u64,
    pub ino: u64,
    pub mtime: Option<i128>,
    pub is_symlink: bool,
    pub link_target: Option<String>,
}

/// A destination directory that a sync removes.
pub struct ManifestDeleteDirEntry {
    pub rel: String,
    pub dev: u64,
    pub ino: u64,
}

/// The times of a source directory.
pub struct ManifestDirTimeEntry {
    /// The text of its path below the source, empty for the source itself.
    pub rel: String,
    pub atime: i128,
    pub mtime: i128,
}

/// What a transfer does, entry by entry.
pub struct TransferManifest {
    pub dirs: Vec<ManifestDir>,
    pub dir_times: Vec<ManifestDirTimeEntry>,
    pub copy_files: Vec<ManifestFileEntry>,
    pub identical_files: Vec<ManifestFileEntry>,
    pub sync_delete_files: Vec<ManifestDeleteEntry>,
    pub sync_delete_dirs: Vec<ManifestDeleteDirEntry>,
}

/// Parents first: fewer slashes, then by name.
pub open spec fn shallow_before(a: Seq<char>, b: Seq<char>) -> bool {
    slashes(a) < slashes(b) || (slashes(a) == slashes(b) && order::text_before(a, b))
}

/// Children first: more slashes, then by name.
pub open spec fn deep_before(a: Seq<char>, b: Seq<char>) -> bool {
    slashes(a) > slashes(b) || (slashes(a) == slashes(b) && order::text_before(a, b))
}

/// Children first, and the root behind all others.
pub open spec fn root_last_before(a: Seq<char>, b: Seq<char>) -> bool {
    if b.len() == 0 {
        a.len() > 0
    } else {
        a.len() > 0 && deep_before(a, b)
    }
}

fn shallow_is_before(a: &str, b: &str) -> (r: bool)
    ensures
        r == shallow_before(a@, b@),
{
    let left = text::to_chars(a);
    let right = text::to_chars(b);
    let m: usize = count_slashes(left.as_slice());
    let n: usize = count_slashes(right.as_slice());
    m < n || (m == n && order::text_is_before(left.as_slice(), right.as_slice()))
}

fn deep_is_before(a: &str, b: &str) -> (r: bool)
    ensures
        r == deep_before(a@, b@),
{
    let left = text::to_chars(a);
    let right = text::to_chars(b);
    let m: usize = count_slashes(left.as_slice());
    let n: usize = count_slashes(right.as_slice());
    m > n || (m == n && order::text_is_before(left.as_slice(), right.as_slice()))
}

fn name_is_before(a: &str, b: &str) -> (r: bool)
    ensures
        r == order::text_before(a@, b@),
{
    order::text_is_before(text::to_chars(a).as_slice(), text::to_chars(b).as_slice())
}

impl Ranked for ManifestDir {
    open spec fn before(self, other: Self) -> bool {
        shallow_before(self.rel@, other.rel@)
    }

    proof fn asymmetric(a: Self, b: Self) {
        order::lemma_text_total(a.rel@, b.rel@);
    }

    proof fn not_before_transitive(a: Self, b: Self, c: Self) {
        if slashes(a.rel@) == slashes(b.rel@) && slashes(b.rel@) == slashes(c.rel@) {
            order::lemma_text_not_before_transitive(a.rel@, b.rel@, c.rel@);
        }
    }

    fn is_before(&self, other: &Self) -> (r: bool) {
        shallow_is_before(self.rel.as_str(), other.rel.as_str())
    }
}

impl Ranked for ManifestFileEntry {
    open spec fn before(self, other: Self) -> bool {
        order::text_before(self.rel@, other.rel@)
    }

    proof fn asymmetric(a: Self, b: Self) {
        order::lemma_text_total(a.rel@, b.rel@);
    }

    proof fn not_before_transitive(a: Self, b: Self, c: Self) {
        order::lemma_text_not_before_transitive(a.rel@, b.rel@, c.rel@);
    }

    fn is_before(&self, other: &Self) -> (r: bool) {
        name_is_before(self.rel.as_str(), other.rel.as_str())
    }
}

impl Ranked for ManifestDeleteEntry {
    open spec fn before(self, other: Self) -> bool {
        order::text_before(self.rel@, other.rel@)
    }

    proof fn asymmetric(a: Self, b: Self) {
        order::lemma_text_total(a.rel@, b.rel@);
    }

    proof fn not_before_transitive(a: Self, b: Self, c: Self) {
        order::lemma_text_not_before_transitive(a.rel@, b.rel@, c.rel@);
    }

    fn is_before(&self, other: &Self) -> (r: bool) {
        name_is_before(self.rel.as_str(), other.rel.as_str())
    }
}

impl Ranked for ManifestDeleteDirEntry {
    open spec fn before(self, other: Self) -> bool {
        deep_before(self.rel@, other.rel@)
    }

    proof fn asymmetric(a: Self, b: Self) {
        order::lemma_text_total(a.rel@, b.rel@);
    }

    proof fn not_before_transitive(a: Self, b: Self, c: Self) {
        if slashes(a.rel@) == slashes(b.rel@) && slashes(b.rel@) == slashes(c.rel@) {
            order::lemma_text_not_before_transitive(a.rel@, b.rel@, c.rel@);
        }
    }

    fn is_before(&self, other: &Self) -> (r: bool) {
        deep_is_before(self.rel.as_str(), other.rel.as_str())
    }
}

impl Ranked for ManifestDirTimeEntry {
    open spec fn before(self, other: Self) -> bool {
        root_last_before(self.rel@, other.rel@)
    }

    proof fn asymmetric(a: Self, b: Self) {
        order::lemma_text_total(a.rel@, b.rel@);
    }

    proof fn not_before_transitive(a: Self, b: Self, c: Self) {
        if a.rel@.len() > 0 && b.rel@.len() > 0 && c.rel@.len() > 0 && slashes(a.rel@) == slashes(
            b.rel@,
        ) && slashes(b.rel@) == slashes(c.rel@) {
            order::lemma_text_not_before_transitive(a.rel@, b.rel@, c.rel@);
        }
    }

    fn is_before(&self, other: &Self) -> (r: bool) {
        let some = text::to_chars(self.rel.as_str()).len() > 0;
        if text::to_chars(other.rel.as_str()).len() == 0 {
            some
        } else {
            some && deep_is_before(self.rel.as_str(), other.rel.as_str())
        }
    }
}

/// Whether a directory lies above another one: the root above all others, and any
/// other above what begins with its path and a slash.
pub open spec fn is_above(a: Seq<char>, b: Seq<char>) -> bool {
    if a.len() == 0 {
        b.len() > 0
    } else {
        text::begins(b, a.push('/'))
    }
}

proof fn lemma_slashes_grow(s: Seq<char>, n: int)
    requires
        0 <= n <= s.len(),
    ensures
        slashes(s.take(n)) <= slashes(s),
    decreases s.len() - n,
{
    if n < s.len() {
        lemma_slashes_grow(s, n + 1);
        assert(s.take(n + 1).drop_last() == s.take(n));
    } else {
        assert(s.take(n) == s);
    }
}

/// The times of a directory come before those of every directory above it, the root
/// included: setting them in turn, none is changed by what is set after it.
pub proof fn law_children_times_come_first(times: Seq<ManifestDirTimeEntry>, i: int, j: int)
    requires
        0 <= i < order::ranked(times).len(),
        0 <= j < order::ranked(times).len(),
        is_above(order::ranked(times)[j].rel@, order::ranked(times)[i].rel@),
    ensures
        i < j,
{
    order::law_ranked(times);
    let sorted = order::ranked(times);
    let a = sorted[j].rel@;
    let b = sorted[i].rel@;
    if a.len() > 0 {
        let head = a.push('/');
        assert(b.take(head.len() as int) == head);
        lemma_slashes_grow(b, head.len() as int);
        assert(head.drop_last() == a);
        assert(slashes(head) == slashes(a) + 1);
    }
    assert(sorted[i].before(sorted[j]));
    if j <= i {
        assert(!sorted[i].before(sorted[j]));
    }
}

/// A directory that a sync removes comes before every directory above it.
pub proof fn law_removed_children_come_first(dirs: Seq<ManifestDeleteDirEntry>, i: int, j: int)
    requires
        0 <= i < order::ranked(dirs).len(),
        0 <= j < order::ranked(dirs).len(),
        order::ranked(dirs)[j].rel@.len() > 0,
        is_above(order::ranked(dirs)[j].rel@, order::ranked(dirs)[i].rel@),
    ensures
        i < j,
{
    order::law_ranked(dirs);
    let sorted = order::ranked(dirs);
    let a = sorted[j].rel@;
    let b = sorted[i].rel@;
    let head = a.push('/');
    assert(b.take(head.len() as int) == head);
    lemma_slashes_grow(b, head.len() as int);
    assert(head.drop_last() == a);
    assert(sorted[i].before(sorted[j]));
    if j <= i {
        assert(!sorted[i].before(sorted[j]));
    }
}

/// What a walk of the source found.
pub struct SourceScan {
    pub dirs: Vec<ManifestDir>,
    pub files: Vec<ScannedFileEntry>,
    pub dir_times: Vec<ManifestDirTimeEntry>,
    pub complete: bool,
}

/// The model of a source scan.
pub struct SourceModel {
    pub dirs: Seq<ManifestDir>,
    pub files: Seq<ScannedFileEntry>,
    pub dir_times: Seq<ManifestDirTimeEntry>,
    pub complete: bool,
}

impl View for SourceScan {
    type V = SourceModel;

    open spec fn view(&self) -> SourceModel {
        SourceModel {
            dirs: self.dirs@,
            files: self.files@,
            dir_times: self.dir_times@,
            complete: self.complete,
        }
    }
}

/// The scan of an empty walk.
pub open spec fn empty_scan() -> SourceModel {
    SourceModel {
        dirs: Seq::empty(),
        files: Seq::empty(),
        dir_times: Seq::empty(),
        complete: true,
    }
}

/// The scan with one more entry.
pub open spec fn scan_step(
    scan: SourceModel,
    walked: Option<WalkedEntry>,
    exclude_rel: Option<Seq<char>>,
    collect_dir_times: bool,
) -> SourceModel {
    match walked {
        None => SourceModel { complete: false, ..scan },
        Some(e) => if !e.utf8 {
            SourceModel { complete: false, ..scan }
        } else if exclude_rel is Some && paths::matches_prefix(e.rel@, exclude_rel->0) {
            scan
        } else {
            match e.kind {
                WalkKind::Dir => SourceModel {
                    dir_times: if collect_dir_times {
                        scan.dir_times.push(
                            ManifestDirTimeEntry {
                                rel: e.rel,
                                atime: e.restore_atime,
                                mtime: e.restore_mtime,
                            },
                        )
                    } else {
                        scan.dir_times
                    },
                    dirs: if e.rel@.len() > 0 {
                        scan.dirs.push(ManifestDir { rel: e.rel })
                    } else {
                        scan.dirs
                    },
                    ..scan
                },
                WalkKind::File => SourceModel {
                    files: scan.files.push(
                        ScannedFileEntry {
                            rel: e.rel,
                            size: e.size,
                            is_symlink: false,
                            dev: e.dev,
                            ino: e.ino,
                            nlink: e.nlink,
                            mtime: e.mtime,
                            link_target: None,
                        },
                    ),
                    ..scan
                },
                WalkKind::Symlink => SourceModel {
                    files: scan.files.push(
                        ScannedFileEntry {
                            rel: e.rel,
                            size: 0,
                            is_symlink: true,
                            dev: e.dev,
                            ino: e.ino,
                            nlink: e.nlink,
                            mtime: None,
                            link_target: e.link_target,
                        },
                    ),
                    ..scan
                },
                _ => SourceModel { complete: false, ..scan },
            }
        },
    }
}

/// The scan of a walk.
pub open spec fn scanned_source(
    walked: Seq<Option<WalkedEntry>>,
    exclude_rel: Option<Seq<char>>,
    collect_dir_times: bool,
) -> SourceModel
    decreases walked.len(),
{
    if walked.len() == 0 {
        empty_scan()
    } else {
        scan_step(
            scanned_source(walked.drop_last(), exclude_rel, collect_dir_times),
            walked.last(),
            exclude_rel,
            collect_dir_times,
        )
    }
}

/// The text of an optional string slice.
pub open spec fn opt_str(s: Option<&str>) -> Option<Seq<char>> {
    match s {
        Some(t) => Some(t@),
        None => None,
    }
}

/// Sorts a walk's entries into directories and files.
pub fn scan_source_entries(
    walked: Vec<Option<WalkedEntry>>,
    exclude_rel: Option<&str>,
    collect_dir_times: bool,
) -> (r: SourceScan)
    ensures
        r@ == scanned_source(walked@, opt_str(exclude_rel), collect_dir_times),
{
    let ghost all = walked@;
    let ghost exclude = opt_str(exclude_rel);
    let mut rest = walked;
    order::reverse(&mut rest);
    let mut scan = SourceScan {
        dirs: Vec::new(),
        files: Vec::new(),
        dir_times: Vec::new(),
        complete: true,
    };
    let ghost mut n: int = 0;
    assert(all.take(0) == Seq::<Option<WalkedEntry>>::empty());
    while rest.len() > 0
        invariant
            0 <= n <= all.len(),
            exclude == opt_str(exclude_rel),
            rest@ == all.skip(n).reverse(),
            scan@ == scanned_source(all.take(n), exclude, collect_dir_times),
        decreases rest@.len(),
    {
        let item = rest.pop().unwrap();
        proof {
            assert(item == all[n]) by {
                assert(all.skip(n).reverse().last() == all.skip(n)[0]);
            }
            assert(all.take(n + 1).drop_last() == all.take(n));
            assert(all.take(n + 1).last() == item);
            assert(all.skip(n).reverse().drop_last() == all.skip(n + 1).reverse());
            n = n + 1;
        }
        match item {
            None => {
                scan.complete = false;
            },
            Some(e) => {
                let excluded = match exclude_rel {
                    Some(prefix) => paths::rel_matches_prefix(e.rel.as_str(), prefix),
                    None => false,
                };
                if !e.utf8 {
                    scan.complete = false;
                } else if !excluded {
                    match e.kind {
                        WalkKind::Dir => {
                            if collect_dir_times {
                                scan.dir_times.push(
                                    ManifestDirTimeEntry {
                                        rel: e.rel.clone(),
                                        atime: e.restore_atime,
                                        mtime: e.restore_mtime,
                                    },
                                );
                            }
                            if !e.rel.as_str().is_empty() {
                                scan.dirs.push(ManifestDir { rel: e.rel });
                            }
                        },
                        WalkKind::File => {
                            scan.files.push(
                                ScannedFileEntry {
                                    rel: e.rel,
                                    size: e.size,
                                    is_symlink: false,
                                    dev: e.dev,
                                    ino: e.ino,
                                    nlink: e.nlink,
                                    mtime: e.mtime,
                                    link_target: None,
                                },
                            );
                        },
                        WalkKind::Symlink => {
                            scan.files.push(
                                ScannedFileEntry {
                                    rel: e.rel,
                                    size: 0,
                                    is_symlink: true,
                                    dev: e.dev,
                                    ino: e.ino,
                                    nlink: e.nlink,
                                    mtime: None,
                                    link_target: e.link_target,
                                },
                            );
                        },
                        _ => {
                            scan.complete = false;
                        },
                    }
                }
            },
        }
    }
    assert(all.take(all.len() as int) == all);
    scan
}

/// How a directory is to be planned.
#[derive(Clone, Copy, Debug, PartialEq, Eq, Structural)]
pub struct DirScanOptions {
    /// The source directory itself, not only its contents, goes below the
    /// destination.
    pub include_root: bool,
    pub build_manifest: bool,
    pub retain_identical_manifest: bool,
    pub build_source_display_paths: bool,
    pub collect_file_relation_breakdown: bool,
    pub sync_mode: bool,
    pub replace_dest_symlink: bool,
    pub merge_collision_policy: MergeCollisionPolicy,
    pub bounded_preview_depth: Option<usize>,
}

/// Whether a directory is among the scanned ones.
pub open spec fn has_dir(dirs: Seq<ManifestDir>, rel: Seq<char>) -> bool {
    exists|i: int| 0 <= i < dirs.len() && #[trigger] dirs[i].rel@ == rel
}

/// Whether the destination (`None` where it is missing altogether) has a
/// directory at a path.
pub open spec fn dest_has_dir(
    dest: Option<Map<Seq<char>, DestinationEntry>>,
    rel: Seq<char>,
) -> bool {
    dest is Some && dest->0.contains_key(rel) && dest->0[rel].kind == DestinationKind::Directory
}

/// Whether a source directory has to be made: the destination lacks it, or
/// lacks a scanned directory above it.
pub open spec fn dir_missing(
    dirs: Seq<ManifestDir>,
    dest: Option<Map<Seq<char>, DestinationEntry>>,
    rel: Seq<char>,
) -> bool
    decreases rel.len(),
{
    ||| !dest_has_dir(dest, rel)
    ||| (match paths::rel_parent(rel) {
        Some(p) => p.len() < rel.len() && has_dir(dirs, p) && dir_missing(dirs, dest, p),
        None => false,
    })
}

/// The source directories that have to be made.
pub open spec fn missing_dirs(
    dirs: Seq<ManifestDir>,
    dest: Option<Map<Seq<char>, DestinationEntry>>,
) -> Set<Seq<char>> {
    Set::new(|d: Seq<char>| has_dir(dirs, d) && dir_missing(dirs, dest, d))
}

/// The index of an optional destination.
pub open spec fn dest_of(index: Option<DestinationIndex>) -> Option<
    Map<Seq<char>, DestinationEntry>,
> {
    match index {
        Some(i) => Some(i@),
        None => None,
    }
}

proof fn lemma_slashes_tail(s: Seq<char>, at: int)
    requires
        0 <= at < s.len(),
        s[at] == '/',
    ensures
        slashes(s.take(at)) < slashes(s),
    decreases s.len(),
{
    if at == s.len() - 1 {
        assert(s.take(at) == s.drop_last());
    } else {
        lemma_slashes_tail(s.drop_last(), at);
        assert(s.drop_last().take(at) == s.take(at));
    }
}

/// A directory's parent has fewer slashes.
proof fn lemma_parent_is_shallower(rel: Seq<char>)
    ensures
        paths::rel_parent(rel) matches Some(p) ==> slashes(p) < slashes(rel) && p.len()
            < rel.len(),
{
    let at = text::rfind_char(rel, '/');
    lemma_rfind(rel, '/');
    if at >= 0 {
        lemma_slashes_tail(rel, at);
    }
}

proof fn lemma_rfind(s: Seq<char>, c: char)
    ensures
        -1 <= text::rfind_char(s, c) < s.len(),
        text::rfind_char(s, c) >= 0 ==> s[text::rfind_char(s, c)] == c,
    decreases s.len(),
{
    if s.len() > 0 && s.last() != c {
        lemma_rfind(s.drop_last(), c);
    }
}

/// Finds the source directories that have to be made. The directories are in
/// order, parents first.
fn find_missing_dirs(dirs: &Vec<ManifestDir>, index: &Option<DestinationIndex>) -> (r: NameSet)
    requires
        order::in_order(dirs@),
        index matches Some(i) ==> i.wf(),
    ensures
        r.wf(),
        r@ == missing_dirs(dirs@, dest_of(*index)),
        r.listed().len() <= dirs@.len(),
{
    let ghost dest = dest_of(*index);
    let mut missing = NameSet::new();
    let mut i: usize = 0;
    while i < dirs.len()
        invariant
            i <= dirs@.len(),
            order::in_order(dirs@),
            index matches Some(x) ==> x.wf(),
            dest == dest_of(*index),
            missing.wf(),
            missing.listed().len() <= i,
            forall|d: Seq<char>| #[trigger]
                missing@.contains(d) <==> dir_missing(dirs@, dest, d) && exists|k: int|
                    0 <= k < i && #[trigger] dirs@[k].rel@ == d,
        decreases dirs@.len() - i,
    {
        let rel = &dirs[i].rel;
        let chars = text::to_chars(rel.as_str());
        let parent_missing = match text::rfind(chars.as_slice(), '/') {
            Some(at) => {
                let head = text::part(chars.as_slice(), 0, at);
                assert(head@ == chars@.take(at as int));
                missing.contains(text::from_chars(head.as_slice()).as_str())
            },
            None => false,
        };
        let present = match index {
            Some(index) => match index.get(rel.as_str()) {
                Some(entry) => match entry.kind {
                    DestinationKind::Directory => true,
                    _ => false,
                },
                None => false,
            },
            None => false,
        };
        let ghost before = missing@;
        proof {
            lemma_parent_is_shallower(rel@);
            if let Some(p) = paths::rel_parent(rel@) {
                if has_dir(dirs@, p) {
                    let k = choose|k: int| 0 <= k < dirs@.len() && #[trigger] dirs@[k].rel@ == p;
                    if k >= i {
                        assert(!dirs@[k].before(dirs@[i as int]));
                    }
                    assert(k < i);
                }
                assert(before.contains(p) <==> has_dir(dirs@, p) && dir_missing(dirs@, dest, p));
            }
        }
        if parent_missing || !present {
            let _ = missing.insert(rel.clone());
        }
        assert forall|d: Seq<char>| #[trigger]
            missing@.contains(d) <==> dir_missing(dirs@, dest, d) && exists|k: int|
                0 <= k < i + 1 && #[trigger] dirs@[k].rel@ == d by {
            if d == rel@ {
                assert(dirs@[i as int].rel@ == d);
            }
        }
        i = i + 1;
    }
    assert(missing@ == missing_dirs(dirs@, dest));
    missing
}

/// `s` with every pair of slashes replaced by one, from left to right.
pub open spec fn halve_slashes(s: Seq<char>) -> Seq<char>
    decreases s.len(),
{
    if s.len() == 0 {
        s
    } else if s.len() > 1 && s[0] == '/' && s[1] == '/' {
        seq!['/'] + halve_slashes(s.skip(2))
    } else {
        seq![s[0]] + halve_slashes(s.skip(1))
    }
}

fn halve(s: &[char]) -> (r: Vec<char>)
    ensures
        r@ == halve_slashes(s@),
{
    let mut out: Vec<char> = Vec::new();
    let mut i: usize = 0;
    assert(s@.skip(0) == s@);
    while i < s.len()
        invariant
            i <= s@.len(),
            out@ + halve_slashes(s@.skip(i as int)) == halve_slashes(s@),
        decreases s@.len() - i,
    {
        let ghost rest = s@.skip(i as int);
        assert(rest.skip(1) == s@.skip(i + 1));
        let ghost before = out@;
        out.push(s[i]);
        if i + 1 < s.len() && s[i] == '/' && s[i + 1] == '/' {
            assert(rest.skip(2) == s@.skip(i + 2));
            assert(before + (seq!['/'] + halve_slashes(rest.skip(2))) == out@ + halve_slashes(
                rest.skip(2),
            ));
            i = i + 2;
        } else {
            assert(before + (seq![rest[0]] + halve_slashes(rest.skip(1))) == out@
                + halve_slashes(rest.skip(1)));
            i = i + 1;
        }
    }
    assert(s@.skip(i as int) == Seq::<char>::empty());
    out
}

/// How a directory is shown.
pub open spec fn shown_dir(include_root: bool, src_base: Seq<char>, rel: Seq<char>) -> Seq<char> {
    halve_slashes(paths::display_rel(include_root, src_base, rel).push('/'))
}

/// The preview of the directories that have to be made, on top of `start`.
pub open spec fn dir_changes(
    dirs: Seq<ManifestDir>,
    missing: Set<Seq<char>>,
    src_base: Seq<char>,
    o: DirScanOptions,
    start: Map<Seq<char>, ChangeKind>,
) -> Map<Seq<char>, ChangeKind>
    decreases dirs.len(),
{
    if dirs.len() == 0 {
        start
    } else {
        let before = dir_changes(dirs.drop_last(), missing, src_base, o, start);
        if missing.contains(dirs.last().rel@) {
            changes::with_change(
                before,
                shown_dir(o.include_root, src_base, dirs.last().rel@),
                ChangeKind::NewDir,
                o.bounded_preview_depth,
            )
        } else {
            before
        }
    }
}

/// What the preview starts from: a new root, where the root is shown.
pub open spec fn root_changes(
    dest_missing: bool,
    src_base: Seq<char>,
    o: DirScanOptions,
) -> Map<Seq<char>, ChangeKind> {
    if o.include_root && dest_missing {
        changes::with_change(
            Map::empty(),
            src_base.push('/'),
            ChangeKind::NewDir,
            o.bounded_preview_depth,
        )
    } else {
        Map::empty()
    }
}

fn preview_dirs(
    dirs: &Vec<ManifestDir>,
    missing: &NameSet,
    dest_missing: bool,
    src_base: &str,
    o: DirScanOptions,
) -> (r: ChangeMap)
    ensures
        r.wf(),
        r@ == dir_changes(dirs@, missing@, src_base@, o, root_changes(dest_missing, src_base@, o)),
{
    let mut out = ChangeMap::new();
    if o.include_root && dest_missing {
        let shown = paths::map_display_rel(true, src_base, "");
        proof {
            reveal_strlit("");
            assert(shown@ == src_base@.push('/'));
        }
        changes::insert_preview_change(&mut out, shown, ChangeKind::NewDir, o.bounded_preview_depth);
    }
    let ghost start = out@;
    let mut i: usize = 0;
    assert(dirs@.take(0) == Seq::<ManifestDir>::empty());
    while i < dirs.len()
        invariant
            i <= dirs@.len(),
            out.wf(),
            out@ == dir_changes(dirs@.take(i as int), missing@, src_base@, o, start),
        decreases dirs@.len() - i,
    {
        assert(dirs@.take(i + 1).drop_last() == dirs@.take(i as int));
        let rel = dirs[i].rel.as_str();
        if missing.contains(rel) {
            let mut shown = paths::map_display_rel(o.include_root, src_base, rel);
            shown.push('/');
            let chars = text::to_chars(shown.as_str());
            let shown = text::from_chars(halve(chars.as_slice()).as_slice());
            changes::insert_preview_change(
                &mut out,
                shown,
                ChangeKind::NewDir,
                o.bounded_preview_depth,
            );
        }
        i = i + 1;
    }
    assert(dirs@.take(dirs@.len() as int) == dirs@);
    out
}

/// Whether a plan reads modification times.
pub open spec fn needs_mtime(o: DirScanOptions) -> bool {
    o.sync_mode || o.merge_collision_policy.predicates.newer || o.collect_file_relation_breakdown
}

/// What a regular file is compared with: whether something stands at its
/// destination, whether that is a symbolic link, its size and its time.
pub struct Counterpart {
    pub exists: bool,
    pub is_symlink: bool,
    pub size: Option<u64>,
    pub mtime: Option<i128>,
}

/// The counterpart of a path in the destination's index.
pub open spec fn counterpart(
    entries: Map<Seq<char>, DestinationEntry>,
    rel: Seq<char>,
    o: DirScanOptions,
) -> Counterpart {
    if !entries.contains_key(rel) {
        Counterpart { exists: false, is_symlink: false, size: None, mtime: None }
    } else {
        let d = entries[rel];
        let link = d.kind == DestinationKind::Symlink;
        let replaced = o.replace_dest_symlink && link;
        Counterpart {
            exists: true,
            is_symlink: link,
            size: if !replaced && d.kind == DestinationKind::Regular {
                Some(d.size)
            } else {
                None
            },
            mtime: if !replaced && needs_mtime(o) {
                d.mtime
            } else {
                None
            },
        }
    }
}

/// Whether everything at a file's place is new: the destination is missing, or
/// the file's directory has to be made.
pub open spec fn in_new_place(
    rel: Seq<char>,
    dest: Option<Map<Seq<char>, DestinationEntry>>,
    missing: Set<Seq<char>>,
) -> bool {
    dest is None || (paths::rel_parent(rel) matches Some(p) && missing.contains(p))
}

/// The time of a source file, where the plan reads times.
pub open spec fn source_mtime(e: ScannedFileEntry, o: DirScanOptions) -> Option<i128> {
    if needs_mtime(o) {
        e.mtime
    } else {
        None
    }
}

/// What the transfer does to a source file.
pub open spec fn file_change(
    e: ScannedFileEntry,
    dest: Option<Map<Seq<char>, DestinationEntry>>,
    missing: Set<Seq<char>>,
    o: DirScanOptions,
) -> Option<ChangeKind> {
    if in_new_place(e.rel@, dest, missing) {
        Some(ChangeKind::NewFile)
    } else if e.is_symlink {
        if !dest->0.contains_key(e.rel@) {
            Some(ChangeKind::NewFile)
        } else {
            let d = dest->0[e.rel@];
            if d.kind == DestinationKind::Symlink && e.link_target is Some && d.link_target is Some
                && e.link_target->0@ == d.link_target->0@ {
                None
            } else {
                Some(ChangeKind::ModFile)
            }
        }
    } else {
        let c = counterpart(dest->0, e.rel@, o);
        if o.sync_mode {
            policy::sync_change(
                e.size,
                source_mtime(e, o),
                c.exists && !c.is_symlink && c.size is Some,
                c.size,
                c.mtime,
            )
        } else {
            policy::collision_change(
                o.merge_collision_policy,
                e.size,
                source_mtime(e, o),
                c.exists,
                c.size,
                c.mtime,
            )
        }
    }
}

/// The counter that a source file adds to the relation breakdown.
pub open spec fn file_breakdown(
    e: ScannedFileEntry,
    dest: Option<Map<Seq<char>, DestinationEntry>>,
    missing: Set<Seq<char>>,
    o: DirScanOptions,
) -> Option<FileRelationBreakdown> {
    if in_new_place(e.rel@, dest, missing) || e.is_symlink || !o.collect_file_relation_breakdown {
        None
    } else {
        let c = counterpart(dest->0, e.rel@, o);
        if c.exists && !c.is_symlink {
            policy::file_relation(e.size, source_mtime(e, o), c.size, c.mtime)
        } else {
            None
        }
    }
}

/// The plan's entry for a source file.
pub open spec fn manifest_entry(e: ScannedFileEntry) -> ManifestFileEntry {
    ManifestFileEntry {
        rel: e.rel,
        size: e.size,
        dev: e.dev,
        ino: e.ino,
        nlink: e.nlink,
        is_symlink: e.is_symlink,
        mtime: e.mtime,
    }
}

fn texts_equal(a: &Option<String>, b: &Option<String>) -> (r: bool)
    ensures
        r == (*a is Some && *b is Some && (*a)->0@ == (*b)->0@),
{
    match (a, b) {
        (Some(a), Some(b)) => text::equal(a.as_str(), b.as_str()),
        _ => false,
    }
}

fn is_in_new_place(rel: &str, index: &Option<DestinationIndex>, missing: &NameSet) -> (r: bool)
    ensures
        r == in_new_place(rel@, dest_of(*index), missing@),
{
    if index.is_none() {
        return true;
    }
    let chars = text::to_chars(rel);
    match text::rfind(chars.as_slice(), '/') {
        Some(at) => {
            let head = text::part(chars.as_slice(), 0, at);
            assert(head@ == chars@.take(at as int));
            missing.contains(text::from_chars(head.as_slice()).as_str())
        },
        None => false,
    }
}

/// Decides what the transfer does to a source file, and how it is counted.
fn judge_file(
    e: &ScannedFileEntry,
    index: &Option<DestinationIndex>,
    missing: &NameSet,
    o: DirScanOptions,
) -> (r: (Option<ChangeKind>, Option<FileRelationBreakdown>))
    requires
        index matches Some(i) ==> i.wf(),
    ensures
        r.0 == file_change(*e, dest_of(*index), missing@, o),
        r.1 == file_breakdown(*e, dest_of(*index), missing@, o),
{
    if is_in_new_place(e.rel.as_str(), index, missing) {
        return (Some(ChangeKind::NewFile), None);
    }
    let found = match index {
        Some(index) => index.get(e.rel.as_str()),
        None => None,
    };
    if e.is_symlink {
        return match found {
            Some(d) => {
                let link = match d.kind {
                    DestinationKind::Symlink => true,
                    _ => false,
                };
                if link && texts_equal(&e.link_target, &d.link_target) {
                    (None, None)
                } else {
                    (Some(ChangeKind::ModFile), None)
                }
            },
            None => (Some(ChangeKind::NewFile), None),
        };
    }
    let times = o.sync_mode || o.merge_collision_policy.requires_mtime()
        || o.collect_file_relation_breakdown;
    let src_mtime = if times {
        e.mtime
    } else {
        None
    };
    let mut exists = false;
    let mut is_symlink = false;
    let mut size: Option<u64> = None;
    let mut mtime: Option<i128> = None;
    if let Some(d) = found {
        exists = true;
        is_symlink = match d.kind {
            DestinationKind::Symlink => true,
            _ => false,
        };
        let regular = match d.kind {
            DestinationKind::Regular => true,
            _ => false,
        };
        let replaced = o.replace_dest_symlink && is_symlink;
        if !replaced && regular {
            size = Some(d.size);
        }
        if !replaced && times {
            mtime = d.mtime;
        }
    }
    let breakdown = if o.collect_file_relation_breakdown && exists && !is_symlink {
        policy::classify_file_relation(e.size, src_mtime, size, mtime)
    } else {
        None
    };
    let change = if o.sync_mode {
        policy::sync_regular_file_change(
            e.size,
            src_mtime,
            exists && !is_symlink && size.is_some(),
            size,
            mtime,
        )
    } else {
        policy::regular_file_collision_change(
            o.merge_collision_policy,
            e.size,
            src_mtime,
            exists,
            size,
            mtime,
        )
    };
    (change, breakdown)
}

/// What the source's files add up to.
#[verifier::ext_equal]
pub struct TotalsModel {
    pub added: nat,
    pub modified: nat,
    pub planned: nat,
    pub changes: Map<Seq<char>, ChangeKind>,
    pub copied: Seq<ManifestFileEntry>,
    pub identical: Seq<ManifestFileEntry>,
    pub parents: Set<Seq<char>>,
    pub breakdown: FileRelationBreakdown,
}

/// The totals of no file.
pub open spec fn no_totals() -> TotalsModel {
    TotalsModel {
        added: 0,
        modified: 0,
        planned: 0,
        changes: Map::empty(),
        copied: Seq::empty(),
        identical: Seq::empty(),
        parents: Set::empty(),
        breakdown: crate::domain::empty_breakdown(),
    }
}

/// The totals with one more file.
pub open spec fn totals_step(
    t: TotalsModel,
    e: ScannedFileEntry,
    dest: Option<Map<Seq<char>, DestinationEntry>>,
    missing: Set<Seq<char>>,
    src_base: Seq<char>,
    o: DirScanOptions,
) -> TotalsModel {
    let breakdown = match file_breakdown(e, dest, missing, o) {
        Some(b) => crate::domain::breakdown_sum(t.breakdown, b),
        None => t.breakdown,
    };
    match file_change(e, dest, missing, o) {
        Some(kind) => TotalsModel {
            added: t.added + (if !e.is_symlink && kind == ChangeKind::NewFile {
                1nat
            } else {
                0nat
            }),
            modified: t.modified + (if !e.is_symlink && kind != ChangeKind::NewFile {
                1nat
            } else {
                0nat
            }),
            planned: t.planned + (if e.is_symlink {
                0
            } else {
                e.size as nat
            }),
            changes: changes::with_change(
                t.changes,
                paths::display_rel(o.include_root, src_base, e.rel@),
                kind,
                o.bounded_preview_depth,
            ),
            copied: if o.build_manifest {
                t.copied.push(manifest_entry(e))
            } else {
                t.copied
            },
            identical: t.identical,
            parents: t.parents.union(scanner::chain_of(e.rel@, o.include_root)),
            breakdown,
        },
        None => TotalsModel {
            identical: if o.build_manifest && o.retain_identical_manifest {
                t.identical.push(manifest_entry(e))
            } else {
                t.identical
            },
            breakdown,
            ..t
        },
    }
}

/// The totals of the source's files.
pub open spec fn file_totals(
    files: Seq<ScannedFileEntry>,
    dest: Option<Map<Seq<char>, DestinationEntry>>,
    missing: Set<Seq<char>>,
    src_base: Seq<char>,
    o: DirScanOptions,
) -> TotalsModel
    decreases files.len(),
{
    if files.len() == 0 {
        no_totals()
    } else {
        totals_step(
            file_totals(files.drop_last(), dest, missing, src_base, o),
            files.last(),
            dest,
            missing,
            src_base,
            o,
        )
    }
}

/// The number of regular files.
pub open spec fn regular_count(files: Seq<ScannedFileEntry>) -> nat
    decreases files.len(),
{
    if files.len() == 0 {
        0
    } else {
        regular_count(files.drop_last()) + (if files.last().is_symlink {
            0nat
        } else {
            1nat
        })
    }
}

/// The bytes of the regular files.
pub open spec fn regular_bytes(files: Seq<ScannedFileEntry>) -> nat
    decreases files.len(),
{
    if files.len() == 0 {
        0
    } else {
        regular_bytes(files.drop_last()) + (if files.last().is_symlink {
            0
        } else {
            files.last().size as nat
        })
    }
}

/// Every regular file is new, modified or left alone: the first two are no
/// more than there are files, and plan no more bytes than the files hold.
pub proof fn law_totals_are_bounded(
    files: Seq<ScannedFileEntry>,
    dest: Option<Map<Seq<char>, DestinationEntry>>,
    missing: Set<Seq<char>>,
    src_base: Seq<char>,
    o: DirScanOptions,
)
    ensures
        ({
            let t = file_totals(files, dest, missing, src_base, o);
            &&& t.added + t.modified <= regular_count(files)
            &&& t.planned <= regular_bytes(files)
            &&& regular_count(files) <= files.len()
        }),
    decreases files.len(),
{
    if files.len() > 0 {
        law_totals_are_bounded(files.drop_last(), dest, missing, src_base, o);
    }
}

proof fn lemma_bytes_grow(files: Seq<ScannedFileEntry>, i: int)
    requires
        0 <= i <= files.len(),
    ensures
        regular_bytes(files.take(i)) <= regular_bytes(files),
    decreases files.len() - i,
{
    if i < files.len() {
        lemma_bytes_grow(files, i + 1);
        assert(files.take(i + 1).drop_last() == files.take(i));
    } else {
        assert(files.take(i) == files);
    }
}

/// With a missing destination every file is new.
pub proof fn law_missing_destination_makes_all_new(
    files: Seq<ScannedFileEntry>,
    missing: Set<Seq<char>>,
    src_base: Seq<char>,
    o: DirScanOptions,
)
    ensures
        ({
            let t = file_totals(files, None, missing, src_base, o);
            &&& t.added == regular_count(files)
            &&& t.modified == 0
            &&& t.planned == regular_bytes(files)
            &&& t.identical.len() == 0
            &&& t.breakdown == crate::domain::empty_breakdown()
        }),
    decreases files.len(),
{
    if files.len() > 0 {
        law_missing_destination_makes_all_new(files.drop_last(), missing, src_base, o);
    }
}

/// A manifest lists every file that changes as one to copy, and where it keeps
/// those that do not change, every other file as well: nothing of the source
/// is passed over, and nothing is listed twice.
pub proof fn law_a_manifest_passes_over_nothing(
    files: Seq<ScannedFileEntry>,
    dest: Option<Map<Seq<char>, DestinationEntry>>,
    missing: Set<Seq<char>>,
    src_base: Seq<char>,
    o: DirScanOptions,
    i: int,
)
    requires
        o.build_manifest,
        0 <= i < files.len(),
    ensures
        ({
            let t = file_totals(files, dest, missing, src_base, o);
            let e = manifest_entry(files[i]);
            let change = file_change(files[i], dest, missing, o);
            &&& change is Some ==> t.copied.contains(e)
            &&& change is None && o.retain_identical_manifest ==> t.identical.contains(e)
            &&& o.retain_identical_manifest ==> t.copied.len() + t.identical.len() == files.len()
        }),
    decreases files.len(),
{
    let front = files.drop_last();
    let before = file_totals(front, dest, missing, src_base, o);
    let t = file_totals(files, dest, missing, src_base, o);
    let e = manifest_entry(files[i]);
    if i < front.len() {
        law_a_manifest_passes_over_nothing(front, dest, missing, src_base, o, i);
        if before.copied.contains(e) {
            let k = before.copied.index_of(e);
            assert(t.copied[k] == e);
        }
        if before.identical.contains(e) {
            let k = before.identical.index_of(e);
            assert(t.identical[k] == e);
        }
    } else {
        if front.len() > 0 {
            law_a_manifest_passes_over_nothing(front, dest, missing, src_base, o, 0);
        }
        if file_change(files[i], dest, missing, o) is Some {
            assert(t.copied[t.copied.len() - 1] == e);
        } else if o.retain_identical_manifest {
            assert(t.identical[t.identical.len() - 1] == e);
        }
    }
}

struct FileTotals {
    added: u64,
    modified: u64,
    planned: u64,
    changes: ChangeMap,
    copied: Vec<ManifestFileEntry>,
    identical: Vec<ManifestFileEntry>,
    parents: NameSet,
    breakdown: FileRelationBreakdown,
}

impl FileTotals {
    spec fn wf(&self) -> bool {
        self.changes.wf() && self.parents.wf()
    }

    spec fn model(&self) -> TotalsModel {
        TotalsModel {
            added: self.added as nat,
            modified: self.modified as nat,
            planned: self.planned as nat,
            changes: self.changes@,
            copied: self.copied@,
            identical: self.identical@,
            parents: self.parents@,
            breakdown: self.breakdown,
        }
    }
}

fn make_manifest_entry(e: &ScannedFileEntry) -> (r: ManifestFileEntry)
    ensures
        r == manifest_entry(*e),
{
    ManifestFileEntry {
        rel: e.rel.clone(),
        size: e.size,
        dev: e.dev,
        ino: e.ino,
        nlink: e.nlink,
        is_symlink: e.is_symlink,
        mtime: e.mtime,
    }
}

fn classify_files(
    files: &Vec<ScannedFileEntry>,
    index: &Option<DestinationIndex>,
    missing: &NameSet,
    src_base: &str,
    o: DirScanOptions,
) -> (r: FileTotals)
    requires
        index matches Some(i) ==> i.wf(),
        regular_bytes(files@) <= u64::MAX,
    ensures
        r.wf(),
        r.model() == file_totals(files@, dest_of(*index), missing@, src_base@, o),
{
    let ghost dest = dest_of(*index);
    let mut t = FileTotals {
        added: 0,
        modified: 0,
        planned: 0,
        changes: ChangeMap::new(),
        copied: Vec::new(),
        identical: Vec::new(),
        parents: NameSet::new(),
        breakdown: FileRelationBreakdown::default(),
    };
    let mut i: usize = 0;
    assert(files@.take(0) == Seq::<ScannedFileEntry>::empty());
    assert(t.model() == no_totals());
    while i < files.len()
        invariant
            i <= files@.len(),
            index matches Some(x) ==> x.wf(),
            regular_bytes(files@) <= u64::MAX,
            dest == dest_of(*index),
            t.wf(),
            t.model() == file_totals(files@.take(i as int), dest, missing@, src_base@, o),
        decreases files@.len() - i,
    {
        let e = &files[i];
        let ghost before = t.model();
        proof {
            assert(files@.take(i + 1).drop_last() == files@.take(i as int));
            law_totals_are_bounded(files@.take(i as int), dest, missing@, src_base@, o);
            law_totals_are_bounded(files@.take(i + 1), dest, missing@, src_base@, o);
            lemma_bytes_grow(files@, i + 1);
        }
        let (change, breakdown) = judge_file(e, index, missing, o);
        if let Some(b) = breakdown {
            t.breakdown.add_assign(b);
        }
        match change {
            Some(kind) => {
                if !e.is_symlink {
                    let new = match kind {
                        ChangeKind::NewFile => true,
                        _ => false,
                    };
                    if new {
                        t.added = t.added + 1;
                    } else {
                        t.modified = t.modified + 1;
                    }
                    t.planned = t.planned + e.size;
                }
                if o.build_manifest {
                    t.copied.push(make_manifest_entry(e));
                }
                let shown = paths::map_display_rel(o.include_root, src_base, e.rel.as_str());
                changes::insert_preview_change(
                    &mut t.changes,
                    shown,
                    kind,
                    o.bounded_preview_depth,
                );
                scanner::add_parent_dir_chain(e.rel.as_str(), o.include_root, &mut t.parents);
            },
            None => {
                if o.build_manifest && o.retain_identical_manifest {
                    t.identical.push(make_manifest_entry(e));
                }
            },
        }
        assert(t.model() == totals_step(before, *e, dest, missing@, src_base@, o));
        i = i + 1;
    }
    assert(files@.take(files@.len() as int) == files@);
    t
}

/// How a source entry is keyed among the shown paths.
pub open spec fn shown_key(include_root: bool, src_base: Seq<char>, rel: Seq<char>) -> Seq<char> {
    text::trim_end_char(paths::display_rel(include_root, src_base, rel), '/')
}

/// Whether a shown path is within the preview's depth.
pub open spec fn within_depth(key: Seq<char>, depth: Option<usize>) -> bool {
    depth is Some ==> text::split_on(key, '/').len() <= depth->0
}

/// The set with one more entry's path, where that is shown.
pub open spec fn with_shown(
    shown: Set<Seq<char>>,
    rel: Seq<char>,
    src_base: Seq<char>,
    o: DirScanOptions,
) -> Set<Seq<char>> {
    let key = shown_key(o.include_root, src_base, rel);
    if key.len() > 0 && within_depth(key, o.bounded_preview_depth) {
        shown.insert(key)
    } else {
        shown
    }
}

/// The paths that a preview shows for the source.
pub open spec fn shown_paths(
    dirs: Seq<ManifestDir>,
    files: Seq<ScannedFileEntry>,
    src_base: Seq<char>,
    o: DirScanOptions,
) -> Set<Seq<char>>
    decreases dirs.len() + files.len(),
{
    if files.len() > 0 {
        with_shown(
            shown_paths(dirs, files.drop_last(), src_base, o),
            files.last().rel@,
            src_base,
            o,
        )
    } else if dirs.len() > 0 {
        with_shown(
            shown_paths(dirs.drop_last(), files, src_base, o),
            dirs.last().rel@,
            src_base,
            o,
        )
    } else if o.include_root && src_base.len() > 0 {
        set![src_base]
    } else {
        Set::empty()
    }
}

fn show(shown: &mut NameSet, rel: &str, src_base: &str, o: DirScanOptions)
    requires
        old(shown).wf(),
    ensures
        final(shown).wf(),
        final(shown)@ == with_shown(old(shown)@, rel@, src_base@, o),
{
    let mapped = paths::map_display_rel(o.include_root, src_base, rel);
    let key = text::trim_end(text::to_chars(mapped.as_str()).as_slice(), '/');
    let deep = match o.bounded_preview_depth {
        Some(depth) => text::split(key.as_slice(), '/').len() > depth,
        None => false,
    };
    if key.len() > 0 && !deep {
        let _ = shown.insert(text::from_chars(key.as_slice()));
    }
}

fn list_shown_paths(
    dirs: &Vec<ManifestDir>,
    files: &Vec<ScannedFileEntry>,
    src_base: &str,
    o: DirScanOptions,
) -> (r: NameSet)
    ensures
        r.wf(),
        r@ == shown_paths(dirs@, files@, src_base@, o),
{
    let mut shown = NameSet::new();
    if o.include_root && !src_base.is_empty() {
        let _ = shown.insert(text::copy(src_base));
    }
    let ghost none = Seq::<ScannedFileEntry>::empty();
    let mut i: usize = 0;
    assert(dirs@.take(0) == Seq::<ManifestDir>::empty());
    assert(shown@ == shown_paths(dirs@.take(0), none, src_base@, o));
    while i < dirs.len()
        invariant
            i <= dirs@.len(),
            none == Seq::<ScannedFileEntry>::empty(),
            shown.wf(),
            shown@ == shown_paths(dirs@.take(i as int), none, src_base@, o),
        decreases dirs@.len() - i,
    {
        assert(dirs@.take(i + 1).drop_last() == dirs@.take(i as int));
        show(&mut shown, dirs[i].rel.as_str(), src_base, o);
        i = i + 1;
    }
    assert(dirs@.take(dirs@.len() as int) == dirs@);
    let mut k: usize = 0;
    assert(files@.take(0) == none);
    while k < files.len()
        invariant
            k <= files@.len(),
            shown.wf(),
            shown@ == shown_paths(dirs@, files@.take(k as int), src_base@, o),
        decreases files@.len() - k,
    {
        assert(files@.take(k + 1).drop_last() == files@.take(k as int));
        show(&mut shown, files[k].rel.as_str(), src_base, o);
        k = k + 1;
    }
    assert(files@.take(files@.len() as int) == files@);
    shown
}

/// Whether a file or symbolic link is among the scanned ones.
pub open spec fn has_file(files: Seq<ScannedFileEntry>, rel: Seq<char>) -> bool {
    exists|i: int| 0 <= i < files.len() && #[trigger] files[i].rel@ == rel
}

fn dir_names(dirs: &Vec<ManifestDir>) -> (r: NameSet)
    ensures
        r.wf(),
        forall|n: Seq<char>| #[trigger] r@.contains(n) <==> has_dir(dirs@, n),
{
    let mut names = NameSet::new();
    let mut i: usize = 0;
    while i < dirs.len()
        invariant
            i <= dirs@.len(),
            names.wf(),
            forall|n: Seq<char>| #[trigger]
                names@.contains(n) <==> exists|k: int|
                    0 <= k < i && #[trigger] dirs@[k].rel@ == n,
        decreases dirs@.len() - i,
    {
        let ghost before = names@;
        let _ = names.insert(dirs[i].rel.clone());
        assert forall|n: Seq<char>| #[trigger] names@.contains(n) <==> exists|k: int|
            0 <= k < i + 1 && #[trigger] dirs@[k].rel@ == n by {
            if n == dirs@[i as int].rel@ {
                assert(dirs@[i as int].rel@ == n);
            }
        }
        i = i + 1;
    }
    names
}

fn file_names(files: &Vec<ScannedFileEntry>) -> (r: NameSet)
    ensures
        r.wf(),
        forall|n: Seq<char>| #[trigger] r@.contains(n) <==> has_file(files@, n),
{
    let mut names = NameSet::new();
    let mut i: usize = 0;
    while i < files.len()
        invariant
            i <= files@.len(),
            names.wf(),
            forall|n: Seq<char>| #[trigger]
                names@.contains(n) <==> exists|k: int|
                    0 <= k < i && #[trigger] files@[k].rel@ == n,
        decreases files@.len() - i,
    {
        let _ = names.insert(files[i].rel.clone());
        assert forall|n: Seq<char>| #[trigger] names@.contains(n) <==> exists|k: int|
            0 <= k < i + 1 && #[trigger] files@[k].rel@ == n by {
            if n == files@[i as int].rel@ {
                assert(files@[i as int].rel@ == n);
            }
        }
        i = i + 1;
    }
    names
}

/// A destination entry of a kind that the source does not have.
pub open spec fn is_extra(
    e: DestinationEntry,
    kind: DestinationKind,
    dirs: Seq<ManifestDir>,
    files: Seq<ScannedFileEntry>,
) -> bool {
    e.kind == kind && !has_dir(dirs, e.rel@) && !has_file(files, e.rel@)
}

/// The destination's extra entries of a kind.
pub open spec fn extras(
    listed: Seq<DestinationEntry>,
    kind: DestinationKind,
    dirs: Seq<ManifestDir>,
    files: Seq<ScannedFileEntry>,
) -> Seq<DestinationEntry> {
    listed.filter(|e: DestinationEntry| is_extra(e, kind, dirs, files))
}

/// The removal of a regular file.
pub open spec fn delete_regular(e: DestinationEntry) -> ManifestDeleteEntry {
    ManifestDeleteEntry {
        rel: e.rel,
        size: e.size,
        dev: e.dev,
        ino: e.ino,
        mtime: e.mtime,
        is_symlink: false,
        link_target: e.link_target,
    }
}

/// The removal of a symbolic link.
pub open spec fn delete_symlink(e: DestinationEntry) -> ManifestDeleteEntry {
    ManifestDeleteEntry {
        rel: e.rel,
        size: 0,
        dev: 0,
        ino: 0,
        mtime: None,
        is_symlink: true,
        link_target: e.link_target,
    }
}

/// The removal of a directory.
pub open spec fn delete_dir(e: DestinationEntry) -> ManifestDeleteDirEntry {
    ManifestDeleteDirEntry { rel: e.rel, dev: e.dev, ino: e.ino }
}

/// The preview with the removals of files or symbolic links.
pub open spec fn removed_files(
    removed: Seq<DestinationEntry>,
    src_base: Seq<char>,
    o: DirScanOptions,
    start: Map<Seq<char>, ChangeKind>,
) -> Map<Seq<char>, ChangeKind>
    decreases removed.len(),
{
    if removed.len() == 0 {
        start
    } else {
        changes::with_change(
            removed_files(removed.drop_last(), src_base, o, start),
            paths::display_rel(o.include_root, src_base, removed.last().rel@),
            ChangeKind::RemovedFile,
            o.bounded_preview_depth,
        )
    }
}

/// The preview with the removals of directories.
pub open spec fn removed_dirs(
    removed: Seq<DestinationEntry>,
    src_base: Seq<char>,
    o: DirScanOptions,
    start: Map<Seq<char>, ChangeKind>,
) -> Map<Seq<char>, ChangeKind>
    decreases removed.len(),
{
    if removed.len() == 0 {
        start
    } else {
        changes::with_change(
            removed_dirs(removed.drop_last(), src_base, o, start),
            text::trim_end_char(
                paths::display_rel(o.include_root, src_base, removed.last().rel@),
                '/',
            ).push('/'),
            ChangeKind::RemovedDir,
            o.bounded_preview_depth,
        )
    }
}

fn copy_text(s: &Option<String>) -> (r: Option<String>)
    ensures
        r == *s,
{
    match s {
        Some(s) => Some(s.clone()),
        None => None,
    }
}

fn collect_extra_files(
    index: &DestinationIndex,
    symlinks: bool,
    dirs: Ghost<Seq<ManifestDir>>,
    files: Ghost<Seq<ScannedFileEntry>>,
    dir_set: &NameSet,
    file_set: &NameSet,
    src_base: &str,
    o: DirScanOptions,
    out: &mut Vec<ManifestDeleteEntry>,
    preview: &mut ChangeMap,
)
    requires
        forall|n: Seq<char>| #[trigger] dir_set@.contains(n) <==> has_dir(dirs@, n),
        forall|n: Seq<char>| #[trigger] file_set@.contains(n) <==> has_file(files@, n),
        old(preview).wf(),
    ensures
        final(preview).wf(),
        ({
            let kind = if symlinks {
                DestinationKind::Symlink
            } else {
                DestinationKind::Regular
            };
            let removed = extras(index.listed(), kind, dirs@, files@);
            &&& final(out)@ == old(out)@ + removed.map_values(
                |e: DestinationEntry|
                    if symlinks {
                        delete_symlink(e)
                    } else {
                        delete_regular(e)
                    },
            )
            &&& final(preview)@ == removed_files(removed, src_base@, o, old(preview)@)
        }),
{
    let kind = if symlinks {
        DestinationKind::Symlink
    } else {
        DestinationKind::Regular
    };
    let ghost f = |e: DestinationEntry| is_extra(e, kind, dirs@, files@);
    let ghost g = |e: DestinationEntry|
        if symlinks {
            delete_symlink(e)
        } else {
            delete_regular(e)
        };
    let ghost listed = index.listed();
    let ghost start = out@;
    let ghost first = preview@;
    let mut i: usize = 0;
    assert(listed.take(0).filter(f) == Seq::<DestinationEntry>::empty()) by {
        reveal(Seq::filter);
    }
    assert(out@ == start + listed.take(0).filter(f).map_values(g));
    while i < index.len()
        invariant
            i <= listed.len(),
            listed == index.listed(),
            kind == (if symlinks {
                DestinationKind::Symlink
            } else {
                DestinationKind::Regular
            }),
            f == (|e: DestinationEntry| is_extra(e, kind, dirs@, files@)),
            g == (|e: DestinationEntry|
                if symlinks {
                    delete_symlink(e)
                } else {
                    delete_regular(e)
                }),
            forall|n: Seq<char>| #[trigger] dir_set@.contains(n) <==> has_dir(dirs@, n),
            forall|n: Seq<char>| #[trigger] file_set@.contains(n) <==> has_file(files@, n),
            preview.wf(),
            out@ == start + listed.take(i as int).filter(f).map_values(g),
            preview@ == removed_files(listed.take(i as int).filter(f), src_base@, o, first),
        decreases listed.len() - i,
    {
        let e = index.entry(i);
        proof {
            scanner::lemma_filter_step(listed, i as int, f);
        }
        let ghost before = listed.take(i as int).filter(f);
        if e.kind == kind && !dir_set.contains(e.rel.as_str()) && !file_set.contains(
            e.rel.as_str(),
        ) {
            let entry = if symlinks {
                ManifestDeleteEntry {
                    rel: e.rel.clone(),
                    size: 0,
                    dev: 0,
                    ino: 0,
                    mtime: None,
                    is_symlink: true,
                    link_target: copy_text(&e.link_target),
                }
            } else {
                ManifestDeleteEntry {
                    rel: e.rel.clone(),
                    size: e.size,
                    dev: e.dev,
                    ino: e.ino,
                    mtime: e.mtime,
                    is_symlink: false,
                    link_target: copy_text(&e.link_target),
                }
            };
            assert(entry == g(*e));
            let ghost pushed = before.push(*e);
            assert(pushed.map_values(g) == before.map_values(g).push(g(*e)));
            assert(pushed.drop_last() == before);
            out.push(entry);
            assert(out@ == start + pushed.map_values(g));
            let shown = paths::map_display_rel(o.include_root, src_base, e.rel.as_str());
            changes::insert_preview_change(
                preview,
                shown,
                ChangeKind::RemovedFile,
                o.bounded_preview_depth,
            );
        }
        i = i + 1;
    }
    assert(listed.take(listed.len() as int) == listed);
}

fn collect_extra_dirs(
    index: &DestinationIndex,
    dirs: Ghost<Seq<ManifestDir>>,
    files: Ghost<Seq<ScannedFileEntry>>,
    dir_set: &NameSet,
    file_set: &NameSet,
    src_base: &str,
    o: DirScanOptions,
    out: &mut Vec<ManifestDeleteDirEntry>,
    preview: &mut ChangeMap,
)
    requires
        forall|n: Seq<char>| #[trigger] dir_set@.contains(n) <==> has_dir(dirs@, n),
        forall|n: Seq<char>| #[trigger] file_set@.contains(n) <==> has_file(files@, n),
        old(preview).wf(),
    ensures
        final(preview).wf(),
        ({
            let removed = extras(index.listed(), DestinationKind::Directory, dirs@, files@);
            &&& final(out)@ == old(out)@ + removed.map_values(|e: DestinationEntry| delete_dir(e))
            &&& final(preview)@ == removed_dirs(removed, src_base@, o, old(preview)@)
        }),
{
    let kind = DestinationKind::Directory;
    let ghost f = |e: DestinationEntry| is_extra(e, kind, dirs@, files@);
    let ghost g = |e: DestinationEntry| delete_dir(e);
    let ghost listed = index.listed();
    let ghost start = out@;
    let ghost first = preview@;
    let mut i: usize = 0;
    assert(listed.take(0).filter(f) == Seq::<DestinationEntry>::empty()) by {
        reveal(Seq::filter);
    }
    assert(out@ == start + listed.take(0).filter(f).map_values(g));
    while i < index.len()
        invariant
            i <= listed.len(),
            listed == index.listed(),
            kind == DestinationKind::Directory,
            f == (|e: DestinationEntry| is_extra(e, kind, dirs@, files@)),
            g == (|e: DestinationEntry| delete_dir(e)),
            forall|n: Seq<char>| #[trigger] dir_set@.contains(n) <==> has_dir(dirs@, n),
            forall|n: Seq<char>| #[trigger] file_set@.contains(n) <==> has_file(files@, n),
            preview.wf(),
            out@ == start + listed.take(i as int).filter(f).map_values(g),
            preview@ == removed_dirs(listed.take(i as int).filter(f), src_base@, o, first),
        decreases listed.len() - i,
    {
        let e = index.entry(i);
        proof {
            scanner::lemma_filter_step(listed, i as int, f);
        }
        let ghost before = listed.take(i as int).filter(f);
        if e.kind == kind && !dir_set.contains(e.rel.as_str()) && !file_set.contains(
            e.rel.as_str(),
        ) {
            let entry = ManifestDeleteDirEntry { rel: e.rel.clone(), dev: e.dev, ino: e.ino };
            assert(entry == g(*e));
            let ghost pushed = before.push(*e);
            assert(pushed.map_values(g) == before.map_values(g).push(g(*e)));
            assert(pushed.drop_last() == before);
            out.push(entry);
            assert(out@ == start + pushed.map_values(g));
            let shown = paths::map_display_rel(o.include_root, src_base, e.rel.as_str());
            let trimmed = text::trim_end(text::to_chars(shown.as_str()).as_slice(), '/');
            let mut shown = text::from_chars(trimmed.as_slice());
            shown.push('/');
            changes::insert_preview_change(
                preview,
                shown,
                ChangeKind::RemovedDir,
                o.bounded_preview_depth,
            );
        }
        i = i + 1;
    }
    assert(listed.take(listed.len() as int) == listed);
}

/// A transfer plan with its counts and its preview.
pub struct PreScan {
    pub scan_complete: bool,
    pub planned_bytes: u64,
    pub planned_bytes_exact: bool,
    pub total_regular_files: Option<u64>,
    pub total_regular_bytes: Option<u64>,
    pub total_dirs: Option<u64>,
    pub add_files: u64,
    pub mod_files: u64,
    pub uncollided_files: u64,
    pub add_dirs: u64,
    pub mod_dirs: u64,
    pub uncollided_dirs: u64,
    pub change_preview: Vec<ChangeItem>,
    pub source_display_paths: Vec<String>,
    pub has_itemized_changes: bool,
    pub transfer_manifest: Option<TransferManifest>,
    pub file_relation_breakdown: FileRelationBreakdown,
}

/// A plan that does nothing.
pub open spec fn is_empty_plan(r: PreScan) -> bool {
    &&& r.planned_bytes == 0
    &&& r.planned_bytes_exact
    &&& r.total_regular_files is None
    &&& r.total_regular_bytes is None
    &&& r.total_dirs is None
    &&& r.add_files == 0
    &&& r.mod_files == 0
    &&& r.uncollided_files == 0
    &&& r.add_dirs == 0
    &&& r.mod_dirs == 0
    &&& r.uncollided_dirs == 0
    &&& r.change_preview@.len() == 0
    &&& r.source_display_paths@.len() == 0
    &&& !r.has_itemized_changes
    &&& r.transfer_manifest is None
    &&& r.file_relation_breakdown == crate::domain::empty_breakdown()
}

impl PreScan {
    /// Tells whether anything is planned: bytes, counted changes, or changes of
    /// symbolic links, which no count shows.
    pub fn has_planned_changes(&self) -> (r: bool)
        ensures
            r == (self.planned_bytes > 0 || self.has_itemized_changes || self.change_preview@.len()
                > 0),
    {
        self.planned_bytes > 0 || self.has_itemized_changes || self.change_preview.len() > 0
    }
}

impl Default for PreScan {
    fn default() -> (r: Self)
        ensures
            r.scan_complete,
            is_empty_plan(r),
    {
        PreScan {
            scan_complete: true,
            planned_bytes: 0,
            planned_bytes_exact: true,
            total_regular_files: None,
            total_regular_bytes: None,
            total_dirs: None,
            add_files: 0,
            mod_files: 0,
            uncollided_files: 0,
            add_dirs: 0,
            mod_dirs: 0,
            uncollided_dirs: 0,
            change_preview: Vec::new(),
            source_display_paths: Vec::new(),
            has_itemized_changes: false,
            transfer_manifest: None,
            file_relation_breakdown: FileRelationBreakdown::default(),
        }
    }
}

/// How many destination entries are of a kind.
pub open spec fn dest_count(index: Option<DestinationIndex>, kind: DestinationKind) -> nat {
    match index {
        Some(i) => i.listed().filter(|e: DestinationEntry| e.kind == kind).len(),
        None => 0,
    }
}

/// Subtraction that stops at zero.
pub open spec fn monus(a: nat, b: nat) -> nat {
    if a < b {
        0
    } else {
        (a - b) as nat
    }
}

/// The directories in which something changes: those above changed files and
/// above new directories.
pub open spec fn touched_dirs(
    parents: Set<Seq<char>>,
    missing: Set<Seq<char>>,
    include_root: bool,
) -> Set<Seq<char>> {
    Set::new(
        |p: Seq<char>|
            parents.contains(p) || exists|d: Seq<char>| #[trigger]
                missing.contains(d) && scanner::chain_of(d, include_root).contains(p),
    )
}

/// A touched directory that exists on both sides.
pub open spec fn is_modified_dir(
    rel: Seq<char>,
    dirs: Seq<ManifestDir>,
    missing: Set<Seq<char>>,
    include_root: bool,
    root_is_dir: bool,
) -> bool {
    if rel.len() == 0 {
        include_root && root_is_dir
    } else {
        has_dir(dirs, rel) && !missing.contains(rel)
    }
}

/// The number of directories that a plan modifies.
pub open spec fn modified_dirs(
    parents: Set<Seq<char>>,
    dirs: Seq<ManifestDir>,
    missing: Set<Seq<char>>,
    include_root: bool,
    root_is_dir: bool,
) -> nat {
    touched_dirs(parents, missing, include_root).filter(
        |rel: Seq<char>| is_modified_dir(rel, dirs, missing, include_root, root_is_dir),
    ).len()
}

proof fn lemma_filter_len(s: Seq<Seq<char>>, f: spec_fn(Seq<char>) -> bool)
    requires
        s.no_duplicates(),
    ensures
        s.to_set().filter(f).finite(),
        s.to_set().filter(f).len() == s.filter(f).len(),
    decreases s.len(),
{
    reveal(Seq::filter);
    vstd::seq_lib::seq_to_set_is_finite(s);
    if s.len() == 0 {
        assert(s.to_set().filter(f) == Set::<Seq<char>>::empty());
    } else {
        let rest = s.drop_last();
        let x = s.last();
        assert(rest.no_duplicates());
        lemma_filter_len(rest, f);
        vstd::seq_lib::seq_to_set_is_finite(rest);
        assert(!rest.contains(x));
        assert forall|y: Seq<char>| s.to_set().contains(y) == rest.to_set().insert(x).contains(
            y,
        ) by {
            if s.contains(y) && y != x {
                let k = choose|k: int| 0 <= k < s.len() && s[k] == y;
                assert(rest[k] == y);
            }
            if rest.contains(y) {
                let k = choose|k: int| 0 <= k < rest.len() && rest[k] == y;
                assert(s[k] == y);
            }
            if y == x {
                assert(s[s.len() - 1] == y);
            }
        }
        assert(s.to_set() == rest.to_set().insert(x));
        if f(x) {
            assert(s.to_set().filter(f) == rest.to_set().filter(f).insert(x));
        } else {
            assert(s.to_set().filter(f) == rest.to_set().filter(f));
        }
    }
}

fn count_modified_dirs(
    touched: &NameSet,
    dir_set: &NameSet,
    dirs: Ghost<Seq<ManifestDir>>,
    missing: &NameSet,
    include_root: bool,
    root_is_dir: bool,
) -> (r: u64)
    requires
        touched.wf(),
        forall|n: Seq<char>| #[trigger] dir_set@.contains(n) <==> has_dir(dirs@, n),
    ensures
        r == touched@.filter(
            |rel: Seq<char>| is_modified_dir(rel, dirs@, missing@, include_root, root_is_dir),
        ).len(),
{
    let ghost f = |rel: Seq<char>|
        is_modified_dir(rel, dirs@, missing@, include_root, root_is_dir);
    let ghost listed = touched.listed();
    proof {
        touched.lemma_listed();
        lemma_filter_len(listed, f);
    }
    let mut n: u64 = 0;
    let mut i: usize = 0;
    let len: usize = touched.len();
    assert(listed.take(0).filter(f).len() == 0) by {
        reveal(Seq::filter);
    }
    while i < len
        invariant
            i <= len,
            len == listed.len(),
            listed == touched.listed(),
            f == (|rel: Seq<char>|
                is_modified_dir(rel, dirs@, missing@, include_root, root_is_dir)),
            forall|m: Seq<char>| #[trigger] dir_set@.contains(m) <==> has_dir(dirs@, m),
            n == listed.take(i as int).filter(f).len(),
            n <= i,
        decreases len - i,
    {
        proof {
            scanner::lemma_filter_step(listed, i as int, f);
        }
        let rel = touched.name(i);
        let modified = if rel.is_empty() {
            include_root && root_is_dir
        } else {
            dir_set.contains(rel) && !missing.contains(rel)
        };
        if modified {
            n = n + 1;
        }
        i = i + 1;
    }
    assert(listed.take(listed.len() as int) == listed);
    n
}

fn add_missing_chains(touched: &mut NameSet, missing: &NameSet, include_root: bool)
    requires
        old(touched).wf(),
        missing.wf(),
    ensures
        final(touched).wf(),
        final(touched)@ == touched_dirs(old(touched)@, missing@, include_root),
{
    let ghost start = touched@;
    let ghost listed = missing.listed();
    let len: usize = missing.len();
    proof {
        missing.lemma_listed();
    }
    let mut i: usize = 0;
    while i < len
        invariant
            i <= len,
            len == listed.len(),
            listed == missing.listed(),
            touched.wf(),
            forall|p: Seq<char>| #[trigger]
                touched@.contains(p) <==> start.contains(p) || exists|k: int|
                    0 <= k < i && scanner::chain_of(#[trigger] listed[k], include_root).contains(p),
        decreases len - i,
    {
        let ghost before = touched@;
        scanner::add_parent_dir_chain(missing.name(i), include_root, touched);
        assert forall|p: Seq<char>| #[trigger] touched@.contains(p) <==> start.contains(p)
            || exists|k: int|
            0 <= k < i + 1 && scanner::chain_of(#[trigger] listed[k], include_root).contains(p) by {
            if scanner::chain_of(listed[i as int], include_root).contains(p) {
                assert(touched@.contains(p));
            }
        }
        i = i + 1;
    }
    assert forall|p: Seq<char>| touched@.contains(p) == touched_dirs(
        start,
        missing@,
        include_root,
    ).contains(p) by {
        if exists|k: int|
            0 <= k < len && scanner::chain_of(#[trigger] listed[k], include_root).contains(p) {
            let k = choose|k: int|
                0 <= k < len && scanner::chain_of(#[trigger] listed[k], include_root).contains(p);
            assert(missing@.contains(listed[k]));
        }
        if exists|d: Seq<char>| #[trigger]
            missing@.contains(d) && scanner::chain_of(d, include_root).contains(p) {
            let d = choose|d: Seq<char>| #[trigger]
                missing@.contains(d) && scanner::chain_of(d, include_root).contains(p);
            assert(listed.to_set().contains(d));
            let k = choose|k: int| 0 <= k < listed.len() && listed[k] == d;
            assert(scanner::chain_of(listed[k], include_root).contains(p));
        }
    }
    assert(touched@ == touched_dirs(start, missing@, include_root));
}

/// What a sync removes at the destination.
pub struct Removals {
    pub regular: Seq<DestinationEntry>,
    pub symlinks: Seq<DestinationEntry>,
    pub dirs: Seq<DestinationEntry>,
}

/// The destination's entries that the source lacks, where a sync removes them.
pub open spec fn removals(
    dirs: Seq<ManifestDir>,
    files: Seq<ScannedFileEntry>,
    index: Option<DestinationIndex>,
    sync_mode: bool,
) -> Removals {
    if !sync_mode || index is None {
        Removals { regular: Seq::empty(), symlinks: Seq::empty(), dirs: Seq::empty() }
    } else {
        let listed = index->0.listed();
        Removals {
            regular: extras(listed, DestinationKind::Regular, dirs, files),
            symlinks: extras(listed, DestinationKind::Symlink, dirs, files),
            dirs: extras(listed, DestinationKind::Directory, dirs, files),
        }
    }
}

/// The files and symbolic links that a sync removes, by name.
pub open spec fn deleted_files(gone: Removals) -> Seq<ManifestDeleteEntry> {
    order::ranked(
        gone.regular.map_values(|e: DestinationEntry| delete_regular(e))
            + gone.symlinks.map_values(|e: DestinationEntry| delete_symlink(e)),
    )
}

/// The directories that a sync removes, the deepest first.
pub open spec fn deleted_dirs(gone: Removals) -> Seq<ManifestDeleteDirEntry> {
    order::ranked(gone.dirs.map_values(|e: DestinationEntry| delete_dir(e)))
}

/// Whether a sync removes something of a name.
pub open spec fn is_deleted(gone: Removals, rel: Seq<char>) -> bool {
    ||| exists|i: int|
        0 <= i < deleted_files(gone).len() && (#[trigger] deleted_files(gone)[i]).rel@ == rel
    ||| exists|i: int|
        0 <= i < deleted_dirs(gone).len() && (#[trigger] deleted_dirs(gone)[i]).rel@ == rel
}

proof fn lemma_extra(
    listed: Seq<DestinationEntry>,
    kind: DestinationKind,
    dirs: Seq<ManifestDir>,
    files: Seq<ScannedFileEntry>,
    i: int,
)
    requires
        0 <= i < extras(listed, kind, dirs, files).len(),
    ensures
        is_extra(extras(listed, kind, dirs, files)[i], kind, dirs, files),
        listed.contains(extras(listed, kind, dirs, files)[i]),
{
    let keep = |e: DestinationEntry| is_extra(e, kind, dirs, files);
    let e = listed.filter(keep)[i];
    assert(listed.filter(keep).contains(e));
    listed.lemma_filter_contains_rev(keep, e);
    assert(keep(e));
}

/// Only a sync removes anything at the destination, and only what is there and
/// has no counterpart in the source.
pub proof fn law_sync_removes_only_extras(
    dirs: Seq<ManifestDir>,
    files: Seq<ScannedFileEntry>,
    index: Option<DestinationIndex>,
    sync_mode: bool,
    rel: Seq<char>,
)
    requires
        is_deleted(removals(dirs, files, index, sync_mode), rel),
    ensures
        sync_mode,
        index is Some,
        !has_dir(dirs, rel),
        !has_file(files, rel),
        exists|k: int|
            0 <= k < index->0.listed().len() && (#[trigger] index->0.listed()[k]).rel@ == rel,
{
    let gone = removals(dirs, files, index, sync_mode);
    let regular = gone.regular.map_values(|e: DestinationEntry| delete_regular(e));
    let links = gone.symlinks.map_values(|e: DestinationEntry| delete_symlink(e));
    let below = gone.dirs.map_values(|e: DestinationEntry| delete_dir(e));
    order::law_ranked(regular + links);
    order::law_ranked(below);
    if exists|i: int|
        0 <= i < deleted_files(gone).len() && (#[trigger] deleted_files(gone)[i]).rel@ == rel {
        let i = choose|i: int|
            0 <= i < deleted_files(gone).len() && (#[trigger] deleted_files(gone)[i]).rel@ == rel;
        let e = deleted_files(gone)[i];
        assert(deleted_files(gone).contains(e));
        order::law_ranked_contains(regular + links, e);
        let k = choose|k: int| 0 <= k < (regular + links).len() && (regular + links)[k] == e;
        let listed = index->0.listed();
        if k < regular.len() {
            lemma_extra(listed, DestinationKind::Regular, dirs, files, k);
            assert(gone.regular[k].rel@ == rel);
            let at = listed.index_of(gone.regular[k]);
            assert(listed[at].rel@ == rel);
        } else {
            let n = k - regular.len();
            lemma_extra(listed, DestinationKind::Symlink, dirs, files, n);
            assert(gone.symlinks[n].rel@ == rel);
            let at = listed.index_of(gone.symlinks[n]);
            assert(listed[at].rel@ == rel);
        }
    } else {
        let i = choose|i: int|
            0 <= i < deleted_dirs(gone).len() && (#[trigger] deleted_dirs(gone)[i]).rel@ == rel;
        let e = deleted_dirs(gone)[i];
        assert(deleted_dirs(gone).contains(e));
        order::law_ranked_contains(below, e);
        let k = choose|k: int| 0 <= k < below.len() && below[k] == e;
        let listed = index->0.listed();
        lemma_extra(listed, DestinationKind::Directory, dirs, files, k);
        assert(gone.dirs[k].rel@ == rel);
        let at = listed.index_of(gone.dirs[k]);
        assert(listed[at].rel@ == rel);
    }
}

/// The changes that the preview of a directory shows.
pub open spec fn directory_preview(
    src_base: Seq<char>,
    dirs: Seq<ManifestDir>,
    dest: Option<Map<Seq<char>, DestinationEntry>>,
    t: TotalsModel,
    gone: Removals,
    o: DirScanOptions,
) -> Map<Seq<char>, ChangeKind> {
    let made = dir_changes(
        dirs,
        missing_dirs(dirs, dest),
        src_base,
        o,
        root_changes(dest is None, src_base, o),
    );
    removed_dirs(
        gone.dirs,
        src_base,
        o,
        removed_files(
            gone.symlinks,
            src_base,
            o,
            removed_files(gone.regular, src_base, o, made),
        ),
    ).union_prefer_right(t.changes)
}

/// The plan for a directory. `index` is the destination's index, absent where
/// the destination root is missing; `root_is_dir` tells whether the root is a
/// directory.
pub open spec fn is_directory_plan(
    r: PreScan,
    src_base: Seq<char>,
    scan: SourceModel,
    index: Option<DestinationIndex>,
    root_is_dir: bool,
    o: DirScanOptions,
) -> bool {
    let dirs = order::ranked(scan.dirs);
    let dest = dest_of(index);
    let missing = missing_dirs(dirs, dest);
    let t = file_totals(scan.files, dest, missing, src_base, o);
    let gone = removals(dirs, scan.files, index, o.sync_mode);
    let new_root: nat = if o.include_root && !root_is_dir {
        1
    } else {
        0
    };
    let total_dirs = dirs.len() + (if o.include_root {
        1nat
    } else {
        0nat
    });
    let dest_dirs = dest_count(index, DestinationKind::Directory);
    let by_scan: nat = match index {
        Some(i) => i.listed().filter(
            |e: DestinationEntry|
                e.kind == DestinationKind::Directory && !has_dir(dirs, e.rel@),
        ).len(),
        None => 0,
    };
    let by_overlap = monus(dest_dirs, monus(dirs.len(), missing.len()));
    &&& r.scan_complete == (scan.complete && (index is Some ==> index->0.whole()))
    &&& r.planned_bytes == t.planned
    &&& r.planned_bytes_exact
    &&& r.total_regular_files == Some(regular_count(scan.files) as u64)
    &&& r.total_regular_bytes == Some(regular_bytes(scan.files) as u64)
    &&& r.total_dirs == Some(total_dirs as u64)
    &&& r.add_files == t.added
    &&& r.mod_files == t.modified
    &&& r.uncollided_files == monus(
        dest_count(index, DestinationKind::Regular),
        monus(regular_count(scan.files), t.added),
    )
    &&& r.add_dirs == missing.len() + new_root
    &&& r.mod_dirs == (if modified_dirs(t.parents, dirs, missing, o.include_root, root_is_dir)
        <= monus(total_dirs, missing.len() + new_root) {
        modified_dirs(t.parents, dirs, missing, o.include_root, root_is_dir)
    } else {
        monus(total_dirs, missing.len() + new_root)
    })
    &&& r.uncollided_dirs == (if by_scan >= by_overlap {
        by_scan
    } else {
        by_overlap
    })
    &&& changes::lists(r.change_preview@, directory_preview(src_base, dirs, dest, t, gone, o))
    &&& text::texts(r.source_display_paths@).no_duplicates()
    &&& text::texts(r.source_display_paths@).to_set() == (if o.build_source_display_paths {
        shown_paths(scan.dirs, scan.files, src_base, o)
    } else {
        Set::empty()
    })
    &&& r.has_itemized_changes == ((o.include_root && index is None) || missing.len() > 0
        || t.added > 0 || t.modified > 0 || gone.regular.len() > 0 || gone.symlinks.len() > 0
        || gone.dirs.len() > 0)
    &&& r.file_relation_breakdown == t.breakdown
    &&& r.transfer_manifest is Some == o.build_manifest
    &&& r.transfer_manifest matches Some(m) ==> {
        &&& m.dirs@ == dirs
        &&& m.dir_times@ == order::ranked(scan.dir_times)
        &&& m.copy_files@ == order::ranked(t.copied)
        &&& m.identical_files@ == order::ranked(t.identical)
        &&& m.sync_delete_files@ == deleted_files(gone)
        &&& m.sync_delete_dirs@ == deleted_dirs(gone)
    }
}

/// Whether a list names a source file, with all that the source says of it.
pub open spec fn lists_file(list: Seq<ManifestFileEntry>, e: ScannedFileEntry) -> bool {
    exists|k: int|
        0 <= k < list.len() && (#[trigger] list[k]).rel@ == e.rel@ && list[k].size == e.size
            && list[k].dev == e.dev && list[k].ino == e.ino && list[k].nlink == e.nlink
            && list[k].is_symlink == e.is_symlink && list[k].mtime == e.mtime
}

/// Whether a list holds a path.
pub open spec fn names_path(list: Seq<ManifestFileEntry>, rel: Seq<char>) -> bool {
    exists|k: int| 0 <= k < list.len() && (#[trigger] list[k]).rel@ == rel
}

/// Whether the destination has every directory above a path.
pub open spec fn parents_stand(
    entries: Map<Seq<char>, DestinationEntry>,
    rel: Seq<char>,
) -> bool {
    forall|k: int|
        0 <= k < rel.len() && rel[k] == '/' ==> entries.contains_key(#[trigger] rel.take(k))
            && entries[rel.take(k)].kind == DestinationKind::Directory
}

/// Whether no other file of a scan has the path of one of them.
pub open spec fn path_is_unique(files: Seq<ScannedFileEntry>, i: int) -> bool {
    forall|j: int| 0 <= j < files.len() && j != i ==> (#[trigger] files[j]).rel@ != files[i].rel@
}

proof fn lemma_dir_stands(
    dirs: Seq<ManifestDir>,
    entries: Map<Seq<char>, DestinationEntry>,
    rel: Seq<char>,
)
    requires
        dest_has_dir(Some(entries), rel),
        parents_stand(entries, rel),
    ensures
        !dir_missing(dirs, Some(entries), rel),
    decreases rel.len(),
{
    lemma_rfind(rel, '/');
    let at = text::rfind_char(rel, '/');
    if at >= 0 {
        let p = rel.take(at);
        assert(dest_has_dir(Some(entries), p));
        assert forall|k: int| 0 <= k < p.len() && p[k] == '/' implies entries.contains_key(
            #[trigger] p.take(k),
        ) && entries[p.take(k)].kind == DestinationKind::Directory by {
            assert(p.take(k) == rel.take(k));
            assert(rel[k] == '/');
        }
        lemma_dir_stands(dirs, entries, p);
    }
}

proof fn lemma_place_stands(
    dirs: Seq<ManifestDir>,
    entries: Map<Seq<char>, DestinationEntry>,
    rel: Seq<char>,
)
    requires
        parents_stand(entries, rel),
    ensures
        !in_new_place(rel, Some(entries), missing_dirs(dirs, Some(entries))),
{
    lemma_rfind(rel, '/');
    let at = text::rfind_char(rel, '/');
    if at >= 0 {
        let p = rel.take(at);
        assert(dest_has_dir(Some(entries), p));
        assert forall|k: int| 0 <= k < p.len() && p[k] == '/' implies entries.contains_key(
            #[trigger] p.take(k),
        ) && entries[p.take(k)].kind == DestinationKind::Directory by {
            assert(p.take(k) == rel.take(k));
            assert(rel[k] == '/');
        }
        lemma_dir_stands(dirs, entries, p);
    }
}

proof fn lemma_manifest_holds_only_files(
    files: Seq<ScannedFileEntry>,
    dest: Option<Map<Seq<char>, DestinationEntry>>,
    missing: Set<Seq<char>>,
    src_base: Seq<char>,
    o: DirScanOptions,
)
    ensures
        ({
            let t = file_totals(files, dest, missing, src_base, o);
            &&& forall|k: int|
                0 <= k < t.copied.len() ==> exists|j: int|
                    0 <= j < files.len() && #[trigger] t.copied[k] == manifest_entry(
                        #[trigger] files[j],
                    ) && file_change(files[j], dest, missing, o) is Some
            &&& forall|k: int|
                0 <= k < t.identical.len() ==> exists|j: int|
                    0 <= j < files.len() && #[trigger] t.identical[k] == manifest_entry(
                        #[trigger] files[j],
                    ) && file_change(files[j], dest, missing, o) is None
        }),
    decreases files.len(),
{
    if files.len() > 0 {
        let front = files.drop_last();
        let n = files.len() - 1;
        let before = file_totals(front, dest, missing, src_base, o);
        let t = file_totals(files, dest, missing, src_base, o);
        lemma_manifest_holds_only_files(front, dest, missing, src_base, o);
        assert forall|k: int| 0 <= k < t.copied.len() implies exists|j: int|
            0 <= j < files.len() && #[trigger] t.copied[k] == manifest_entry(#[trigger] files[j])
                && file_change(files[j], dest, missing, o) is Some by {
            if k < before.copied.len() {
                assert(t.copied[k] == before.copied[k]);
                let j = choose|j: int|
                    0 <= j < front.len() && before.copied[k] == manifest_entry(#[trigger] front[j])
                        && file_change(front[j], dest, missing, o) is Some;
                assert(files[j] == front[j]);
            } else {
                assert(t.copied[k] == manifest_entry(files[n]));
            }
        }
        assert forall|k: int| 0 <= k < t.identical.len() implies exists|j: int|
            0 <= j < files.len() && #[trigger] t.identical[k] == manifest_entry(
                #[trigger] files[j],
            ) && file_change(files[j], dest, missing, o) is None by {
            if k < before.identical.len() {
                assert(t.identical[k] == before.identical[k]);
                let j = choose|j: int|
                    0 <= j < front.len() && before.identical[k] == manifest_entry(
                        #[trigger] front[j],
                    ) && file_change(front[j], dest, missing, o) is None;
                assert(files[j] == front[j]);
            } else {
                assert(t.identical[k] == manifest_entry(files[n]));
            }
        }
    }
}

/// How the manifest tells of a file: it is among those to copy exactly when something is
/// done to it.
proof fn lemma_file_in_manifest(
    r: PreScan,
    src_base: Seq<char>,
    scan: SourceModel,
    index: Option<DestinationIndex>,
    root_is_dir: bool,
    o: DirScanOptions,
    i: int,
)
    requires
        is_directory_plan(r, src_base, scan, index, root_is_dir, o),
        o.build_manifest,
        0 <= i < scan.files.len(),
        path_is_unique(scan.files, i),
    ensures
        r.transfer_manifest is Some,
        ({
            let dest = dest_of(index);
            let missing = missing_dirs(order::ranked(scan.dirs), dest);
            let change = file_change(scan.files[i], dest, missing, o);
            let m = r.transfer_manifest->0;
            let e = scan.files[i];
            &&& lists_file(m.copy_files@, e) <==> change is Some
            &&& names_path(m.copy_files@, e.rel@) <==> change is Some
            &&& lists_file(m.identical_files@, e) <==> change is None && o.retain_identical_manifest
            &&& names_path(m.identical_files@, e.rel@) <==> change is None
                && o.retain_identical_manifest
        }),
{
    let files = scan.files;
    let dest = dest_of(index);
    let missing = missing_dirs(order::ranked(scan.dirs), dest);
    let t = file_totals(files, dest, missing, src_base, o);
    let e = files[i];
    let entry = manifest_entry(e);
    let change = file_change(e, dest, missing, o);
    let m = r.transfer_manifest->0;
    law_a_manifest_passes_over_nothing(files, dest, missing, src_base, o, i);
    lemma_manifest_holds_only_files(files, dest, missing, src_base, o);
    order::law_ranked_contains(t.copied, entry);
    order::law_ranked_contains(t.identical, entry);
    if change is Some {
        let k = choose|k: int| 0 <= k < m.copy_files@.len() && m.copy_files@[k] == entry;
        assert(m.copy_files@[k].rel@ == e.rel@);
    } else if o.retain_identical_manifest {
        let k = choose|k: int| 0 <= k < m.identical_files@.len() && m.identical_files@[k] == entry;
        assert(m.identical_files@[k].rel@ == e.rel@);
    }
    if names_path(m.copy_files@, e.rel@) {
        let k = choose|k: int|
            0 <= k < m.copy_files@.len() && (#[trigger] m.copy_files@[k]).rel@ == e.rel@;
        let x = m.copy_files@[k];
        assert(m.copy_files@.contains(x));
        order::law_ranked_contains(t.copied, x);
        let at = choose|at: int| 0 <= at < t.copied.len() && t.copied[at] == x;
        let j = choose|j: int|
            0 <= j < files.len() && t.copied[at] == manifest_entry(#[trigger] files[j])
                && file_change(files[j], dest, missing, o) is Some;
        assert(files[j].rel@ == e.rel@);
        assert(j == i);
    }
    if names_path(m.identical_files@, e.rel@) {
        let k = choose|k: int|
            0 <= k < m.identical_files@.len() && (#[trigger] m.identical_files@[k]).rel@ == e.rel@;
        let x = m.identical_files@[k];
        assert(m.identical_files@.contains(x));
        order::law_ranked_contains(t.identical, x);
        let at = choose|at: int| 0 <= at < t.identical.len() && t.identical[at] == x;
        let j = choose|j: int|
            0 <= j < files.len() && t.identical[at] == manifest_entry(#[trigger] files[j])
                && file_change(files[j], dest, missing, o) is None;
        assert(files[j].rel@ == e.rel@);
        assert(j == i);
        if !o.retain_identical_manifest {
            lemma_nothing_retained(files, dest, missing, src_base, o);
        }
    }
}

proof fn lemma_nothing_retained(
    files: Seq<ScannedFileEntry>,
    dest: Option<Map<Seq<char>, DestinationEntry>>,
    missing: Set<Seq<char>>,
    src_base: Seq<char>,
    o: DirScanOptions,
)
    requires
        !o.retain_identical_manifest,
    ensures
        file_totals(files, dest, missing, src_base, o).identical.len() == 0,
    decreases files.len(),
{
    if files.len() > 0 {
        lemma_nothing_retained(files.drop_last(), dest, missing, src_base, o);
    }
}

/// In a sync a regular file with a regular counterpart is left alone exactly when the
/// source's own size and time are known and equal to those of the counterpart: any other
/// is among the files to copy, with all that the source says of it.
pub proof fn law_sync_copies_exactly_what_differs(
    r: PreScan,
    src_base: Seq<char>,
    scan: SourceModel,
    index: DestinationIndex,
    root_is_dir: bool,
    o: DirScanOptions,
    i: int,
)
    requires
        is_directory_plan(r, src_base, scan, Some(index), root_is_dir, o),
        o.sync_mode,
        o.build_manifest,
        0 <= i < scan.files.len(),
        path_is_unique(scan.files, i),
        !scan.files[i].is_symlink,
        parents_stand(index@, scan.files[i].rel@),
        index@.contains_key(scan.files[i].rel@),
        index@[scan.files[i].rel@].kind == DestinationKind::Regular,
    ensures
        r.transfer_manifest is Some,
        ({
            let m = r.transfer_manifest->0;
            let e = scan.files[i];
            let d = index@[e.rel@];
            let current = e.size == d.size && e.mtime is Some && e.mtime == d.mtime;
            &&& lists_file(m.copy_files@, e) <==> !current
            &&& names_path(m.copy_files@, e.rel@) <==> !current
            &&& o.retain_identical_manifest ==> (lists_file(m.identical_files@, e) <==> current)
        }),
{
    lemma_place_stands(order::ranked(scan.dirs), index@, scan.files[i].rel@);
    lemma_file_in_manifest(r, src_base, scan, Some(index), root_is_dir, o, i);
}

/// In a sync a regular file that has anything but a regular file in its place, or nothing,
/// is copied.
pub proof fn law_sync_copies_what_has_no_counterpart(
    r: PreScan,
    src_base: Seq<char>,
    scan: SourceModel,
    index: Option<DestinationIndex>,
    root_is_dir: bool,
    o: DirScanOptions,
    i: int,
)
    requires
        is_directory_plan(r, src_base, scan, index, root_is_dir, o),
        o.sync_mode,
        o.build_manifest,
        0 <= i < scan.files.len(),
        path_is_unique(scan.files, i),
        !scan.files[i].is_symlink,
        index matches Some(x) ==> !x@.contains_key(scan.files[i].rel@)
            || x@[scan.files[i].rel@].kind != DestinationKind::Regular,
    ensures
        r.transfer_manifest is Some,
        lists_file(r.transfer_manifest->0.copy_files@, scan.files[i]),
        !names_path(r.transfer_manifest->0.identical_files@, scan.files[i].rel@),
{
    lemma_file_in_manifest(r, src_base, scan, index, root_is_dir, o, i);
}

/// Without a sync, a regular file is copied where nothing stands in its place, and where a
/// regular file stands there, exactly when the rule says so of the sizes and times of both.
pub proof fn law_a_merge_follows_the_rule(
    r: PreScan,
    src_base: Seq<char>,
    scan: SourceModel,
    index: DestinationIndex,
    root_is_dir: bool,
    o: DirScanOptions,
    i: int,
)
    requires
        is_directory_plan(r, src_base, scan, Some(index), root_is_dir, o),
        !o.sync_mode,
        o.build_manifest,
        0 <= i < scan.files.len(),
        path_is_unique(scan.files, i),
        !scan.files[i].is_symlink,
        parents_stand(index@, scan.files[i].rel@),
    ensures
        r.transfer_manifest is Some,
        ({
            let copies = r.transfer_manifest->0.copy_files@;
            let rule = o.merge_collision_policy;
            let e = scan.files[i];
            let d = index@[e.rel@];
            &&& !index@.contains_key(e.rel@) ==> lists_file(copies, e)
            &&& index@.contains_key(e.rel@) && d.kind == DestinationKind::Regular ==> (lists_file(
                copies,
                e,
            ) <==> policy::collision_change(
                rule,
                e.size,
                e.mtime,
                true,
                Some(d.size),
                d.mtime,
            ) is Some)
            &&& names_path(copies, e.rel@) <==> lists_file(copies, e)
        }),
{
    let e = scan.files[i];
    let rule = o.merge_collision_policy;
    lemma_place_stands(order::ranked(scan.dirs), index@, e.rel@);
    lemma_file_in_manifest(r, src_base, scan, Some(index), root_is_dir, o, i);
    if index@.contains_key(e.rel@) {
        let d = index@[e.rel@];
        policy::lemma_times_matter_to_newer(
            rule,
            e.size,
            e.mtime,
            d.mtime,
            source_mtime(e, o),
            counterpart(index@, e.rel@, o).mtime,
            Some(d.size),
        );
    }
}

/// A symbolic link of the source is left alone exactly where a symbolic link to the same
/// known target stands in its place, and copied in any other case.
pub proof fn law_links_are_compared_by_target(
    r: PreScan,
    src_base: Seq<char>,
    scan: SourceModel,
    index: DestinationIndex,
    root_is_dir: bool,
    o: DirScanOptions,
    i: int,
)
    requires
        is_directory_plan(r, src_base, scan, Some(index), root_is_dir, o),
        o.build_manifest,
        0 <= i < scan.files.len(),
        path_is_unique(scan.files, i),
        scan.files[i].is_symlink,
        parents_stand(index@, scan.files[i].rel@),
    ensures
        r.transfer_manifest is Some,
        ({
            let copies = r.transfer_manifest->0.copy_files@;
            let e = scan.files[i];
            let d = index@[e.rel@];
            let current = index@.contains_key(e.rel@) && d.kind == DestinationKind::Symlink
                && e.link_target is Some && d.link_target is Some && e.link_target->0@
                == d.link_target->0@;
            &&& lists_file(copies, e) <==> !current
            &&& names_path(copies, e.rel@) <==> !current
        }),
{
    lemma_place_stands(order::ranked(scan.dirs), index@, scan.files[i].rel@);
    lemma_file_in_manifest(r, src_base, scan, Some(index), root_is_dir, o, i);
}

/// Where the destination is missing, all of the source is copied.
pub proof fn law_a_missing_destination_gets_everything(
    r: PreScan,
    src_base: Seq<char>,
    scan: SourceModel,
    root_is_dir: bool,
    o: DirScanOptions,
    i: int,
)
    requires
        is_directory_plan(r, src_base, scan, None, root_is_dir, o),
        o.build_manifest,
        0 <= i < scan.files.len(),
        path_is_unique(scan.files, i),
    ensures
        r.transfer_manifest is Some,
        lists_file(r.transfer_manifest->0.copy_files@, scan.files[i]),
        r.transfer_manifest->0.sync_delete_files@.len() == 0,
        r.transfer_manifest->0.sync_delete_dirs@.len() == 0,
        r.mod_files == 0,
        r.add_files == regular_count(scan.files),
        r.planned_bytes == regular_bytes(scan.files),
{
    let missing = missing_dirs(order::ranked(scan.dirs), None);
    lemma_file_in_manifest(r, src_base, scan, None, root_is_dir, o, i);
    law_missing_destination_makes_all_new(scan.files, missing, src_base, o);
    let gone = removals(order::ranked(scan.dirs), scan.files, None, o.sync_mode);
    order::law_ranked(
        gone.regular.map_values(|e: DestinationEntry| delete_regular(e))
            + gone.symlinks.map_values(|e: DestinationEntry| delete_symlink(e)),
    );
    order::law_ranked(gone.dirs.map_values(|e: DestinationEntry| delete_dir(e)));
}

/// A file in a directory that the destination lacks is copied.
pub proof fn law_files_of_new_directories_are_copied(
    r: PreScan,
    src_base: Seq<char>,
    scan: SourceModel,
    index: DestinationIndex,
    root_is_dir: bool,
    o: DirScanOptions,
    i: int,
    at: int,
    k: int,
)
    requires
        is_directory_plan(r, src_base, scan, Some(index), root_is_dir, o),
        o.build_manifest,
        0 <= i < scan.files.len(),
        path_is_unique(scan.files, i),
        0 <= at < scan.files[i].rel@.len(),
        scan.files[i].rel@[at] == '/',
        forall|j: int|
            at < j < scan.files[i].rel@.len() ==> (#[trigger] scan.files[i].rel@[j]) != '/',
        0 <= k < scan.dirs.len(),
        scan.dirs[k].rel@ == scan.files[i].rel@.take(at),
        !index@.contains_key(scan.files[i].rel@.take(at)) || index@[scan.files[i].rel@.take(
            at,
        )].kind != DestinationKind::Directory,
    ensures
        r.transfer_manifest is Some,
        lists_file(r.transfer_manifest->0.copy_files@, scan.files[i]),
{
    let rel = scan.files[i].rel@;
    let dirs = order::ranked(scan.dirs);
    lemma_rfind_last(rel, '/', at);
    assert(scan.dirs.contains(scan.dirs[k]));
    order::law_ranked_contains(scan.dirs, scan.dirs[k]);
    let n = choose|n: int| 0 <= n < dirs.len() && dirs[n] == scan.dirs[k];
    assert(dirs[n].rel@ == rel.take(at));
    assert(has_dir(dirs, rel.take(at)));
    lemma_file_in_manifest(r, src_base, scan, Some(index), root_is_dir, o, i);
}

proof fn lemma_rfind_last(s: Seq<char>, c: char, at: int)
    requires
        0 <= at < s.len(),
        s[at] == c,
        forall|j: int| at < j < s.len() ==> (#[trigger] s[j]) != c,
    ensures
        text::rfind_char(s, c) == at,
    decreases s.len(),
{
    if at < s.len() - 1 {
        assert(s[s.len() - 1] != c);
        let t = s.drop_last();
        assert forall|j: int| at < j < t.len() implies (#[trigger] t[j]) != c by {
            assert(t[j] == s[j]);
        }
        lemma_rfind_last(t, c, at);
    }
}

/// A plan makes the directories of the source that the destination lacks, and those below
/// them; where all of a directory's path stands at the destination, it is not made.
pub proof fn law_missing_directories_are_made(
    dirs: Seq<ManifestDir>,
    entries: Map<Seq<char>, DestinationEntry>,
    rel: Seq<char>,
)
    ensures
        ({
            let missing = missing_dirs(dirs, Some(entries));
            let present = entries.contains_key(rel) && entries[rel].kind
                == DestinationKind::Directory;
            let scanned = exists|i: int| 0 <= i < dirs.len() && #[trigger] dirs[i].rel@ == rel;
            &&& missing.contains(rel) ==> scanned
            &&& scanned && !present ==> missing.contains(rel)
            &&& present && parents_stand(entries, rel) ==> !missing.contains(rel)
        }),
{
    if entries.contains_key(rel) && entries[rel].kind == DestinationKind::Directory
        && parents_stand(entries, rel) {
        lemma_dir_stands(dirs, entries, rel);
    }
}

/// What lies below a directory that is made is made as well.
pub proof fn law_new_directories_are_new_throughout(
    dirs: Seq<ManifestDir>,
    dest: Option<Map<Seq<char>, DestinationEntry>>,
    rel: Seq<char>,
    at: int,
)
    requires
        has_dir(dirs, rel),
        0 <= at < rel.len(),
        rel[at] == '/',
        forall|j: int| at < j < rel.len() ==> (#[trigger] rel[j]) != '/',
        missing_dirs(dirs, dest).contains(rel.take(at)),
    ensures
        missing_dirs(dirs, dest).contains(rel),
{
    lemma_rfind_last(rel, '/', at);
}

/// A plan's counts and bytes are those of the files that it copies: one regular file each,
/// new or modified, and its size in full. Symbolic links count for nothing.
pub proof fn law_counts_are_those_of_the_copies(
    r: PreScan,
    src_base: Seq<char>,
    scan: SourceModel,
    index: Option<DestinationIndex>,
    root_is_dir: bool,
    o: DirScanOptions,
)
    requires
        is_directory_plan(r, src_base, scan, index, root_is_dir, o),
        o.build_manifest,
    ensures
        r.transfer_manifest is Some,
        r.planned_bytes == listed_bytes(r.transfer_manifest->0.copy_files@),
        r.add_files + r.mod_files == listed_regular(r.transfer_manifest->0.copy_files@),
{
    let dest = dest_of(index);
    let missing = missing_dirs(order::ranked(scan.dirs), dest);
    lemma_totals_are_listed(scan.files, dest, missing, src_base, o);
    lemma_ranked_listed(file_totals(scan.files, dest, missing, src_base, o).copied);
}

/// The bytes of the regular files of a list.
pub open spec fn listed_bytes(list: Seq<ManifestFileEntry>) -> nat
    decreases list.len(),
{
    if list.len() == 0 {
        0
    } else {
        listed_bytes(list.drop_last()) + (if list.last().is_symlink {
            0
        } else {
            list.last().size as nat
        })
    }
}

/// The number of regular files of a list.
pub open spec fn listed_regular(list: Seq<ManifestFileEntry>) -> nat
    decreases list.len(),
{
    if list.len() == 0 {
        0
    } else {
        listed_regular(list.drop_last()) + (if list.last().is_symlink {
            0nat
        } else {
            1nat
        })
    }
}

proof fn lemma_totals_are_listed(
    files: Seq<ScannedFileEntry>,
    dest: Option<Map<Seq<char>, DestinationEntry>>,
    missing: Set<Seq<char>>,
    src_base: Seq<char>,
    o: DirScanOptions,
)
    requires
        o.build_manifest,
    ensures
        ({
            let t = file_totals(files, dest, missing, src_base, o);
            &&& t.planned == listed_bytes(t.copied)
            &&& t.added + t.modified == listed_regular(t.copied)
        }),
    decreases files.len(),
{
    if files.len() > 0 {
        lemma_totals_are_listed(files.drop_last(), dest, missing, src_base, o);
        let before = file_totals(files.drop_last(), dest, missing, src_base, o);
        let x = manifest_entry(files.last());
        assert(before.copied.push(x).drop_last() == before.copied);
    }
}

proof fn lemma_placed_listed(s: Seq<ManifestFileEntry>, x: ManifestFileEntry)
    ensures
        listed_bytes(order::placed(s, x)) == listed_bytes(s.push(x)),
        listed_regular(order::placed(s, x)) == listed_regular(s.push(x)),
    decreases s.len(),
{
    assert(s.push(x).drop_last() == s);
    if s.len() > 0 && x.before(s.last()) {
        lemma_placed_listed(s.drop_last(), x);
        assert(s.drop_last().push(x).drop_last() == s.drop_last());
        let t = order::placed(s.drop_last(), x).push(s.last());
        assert(t.drop_last() == order::placed(s.drop_last(), x));
        assert(listed_bytes(s) == listed_bytes(s.drop_last()) + (if s.last().is_symlink {
            0
        } else {
            s.last().size as nat
        }));
        assert(listed_regular(s) == listed_regular(s.drop_last()) + (if s.last().is_symlink {
            0nat
        } else {
            1nat
        }));
    }
}

proof fn lemma_ranked_listed(s: Seq<ManifestFileEntry>)
    ensures
        listed_bytes(order::ranked(s)) == listed_bytes(s),
        listed_regular(order::ranked(s)) == listed_regular(s),
    decreases s.len(),
{
    if s.len() > 0 {
        lemma_ranked_listed(s.drop_last());
        let rest = order::ranked(s.drop_last());
        lemma_placed_listed(rest, s.last());
        assert(rest.push(s.last()).drop_last() == rest);
    }
}

/// A sync removes everything of the destination that has no counterpart in the source, each
/// with what tells it from another: the device, the inode, the size and the time of a file,
/// the target of a symbolic link, the device and the inode of a directory.
pub proof fn law_sync_removes_every_extra(
    r: PreScan,
    src_base: Seq<char>,
    scan: SourceModel,
    index: DestinationIndex,
    root_is_dir: bool,
    o: DirScanOptions,
    k: int,
)
    requires
        is_directory_plan(r, src_base, scan, Some(index), root_is_dir, o),
        o.sync_mode,
        o.build_manifest,
        0 <= k < index.listed().len(),
        forall|i: int|
            0 <= i < scan.dirs.len() ==> (#[trigger] scan.dirs[i]).rel@ != index.listed()[k].rel@,
        forall|i: int|
            0 <= i < scan.files.len() ==> (#[trigger] scan.files[i]).rel@
                != index.listed()[k].rel@,
    ensures
        r.transfer_manifest is Some,
        ({
            let m = r.transfer_manifest->0;
            let d = index.listed()[k];
            &&& d.kind == DestinationKind::Regular ==> exists|j: int|
                0 <= j < m.sync_delete_files@.len() && (#[trigger] m.sync_delete_files@[j]).rel@
                    == d.rel@ && !m.sync_delete_files@[j].is_symlink && m.sync_delete_files@[j].size
                    == d.size && m.sync_delete_files@[j].dev == d.dev && m.sync_delete_files@[j].ino
                    == d.ino && m.sync_delete_files@[j].mtime == d.mtime
            &&& d.kind == DestinationKind::Symlink ==> exists|j: int|
                0 <= j < m.sync_delete_files@.len() && (#[trigger] m.sync_delete_files@[j]).rel@
                    == d.rel@ && m.sync_delete_files@[j].is_symlink
                    && m.sync_delete_files@[j].link_target == d.link_target
            &&& d.kind == DestinationKind::Directory ==> exists|j: int|
                0 <= j < m.sync_delete_dirs@.len() && (#[trigger] m.sync_delete_dirs@[j]).rel@
                    == d.rel@ && m.sync_delete_dirs@[j].dev == d.dev && m.sync_delete_dirs@[j].ino
                    == d.ino
            &&& r.has_itemized_changes
        }),
{
    let m = r.transfer_manifest->0;
    let d = index.listed()[k];
    let dirs = order::ranked(scan.dirs);
    let gone = removals(dirs, scan.files, Some(index), true);
    let regular = gone.regular.map_values(|e: DestinationEntry| delete_regular(e));
    let links = gone.symlinks.map_values(|e: DestinationEntry| delete_symlink(e));
    let below = gone.dirs.map_values(|e: DestinationEntry| delete_dir(e));
    assert(!has_dir(dirs, d.rel@)) by {
        if has_dir(dirs, d.rel@) {
            let n = choose|n: int| 0 <= n < dirs.len() && #[trigger] dirs[n].rel@ == d.rel@;
            assert(dirs.contains(dirs[n]));
            order::law_ranked_contains(scan.dirs, dirs[n]);
            let i = choose|i: int| 0 <= i < scan.dirs.len() && scan.dirs[i] == dirs[n];
            assert(scan.dirs[i].rel@ == d.rel@);
        }
    }
    let keep = |e: DestinationEntry| is_extra(e, d.kind, dirs, scan.files);
    assert(keep(d));
    index.listed().lemma_filter_contains(keep, k);
    let found = extras(index.listed(), d.kind, dirs, scan.files);
    let n = choose|n: int| 0 <= n < found.len() && found[n] == d;
    if d.kind == DestinationKind::Regular {
        let x = delete_regular(d);
        assert((regular + links)[n] == x);
        order::law_ranked_contains(regular + links, x);
        let j = choose|j: int|
            0 <= j < m.sync_delete_files@.len() && m.sync_delete_files@[j] == x;
        assert(m.sync_delete_files@[j].rel@ == d.rel@);
    } else if d.kind == DestinationKind::Symlink {
        let x = delete_symlink(d);
        assert((regular + links)[regular.len() + n] == x);
        order::law_ranked_contains(regular + links, x);
        let j = choose|j: int|
            0 <= j < m.sync_delete_files@.len() && m.sync_delete_files@[j] == x;
        assert(m.sync_delete_files@[j].rel@ == d.rel@);
    } else {
        let x = delete_dir(d);
        assert(below[n] == x);
        order::law_ranked_contains(below, x);
        let j = choose|j: int| 0 <= j < m.sync_delete_dirs@.len() && m.sync_delete_dirs@[j] == x;
        assert(m.sync_delete_dirs@[j].rel@ == d.rel@);
    }
}

/// A plan that is no sync removes nothing.
pub proof fn law_only_a_sync_removes(
    r: PreScan,
    src_base: Seq<char>,
    scan: SourceModel,
    index: Option<DestinationIndex>,
    root_is_dir: bool,
    o: DirScanOptions,
)
    requires
        is_directory_plan(r, src_base, scan, index, root_is_dir, o),
        !o.sync_mode,
    ensures
        r.transfer_manifest matches Some(m) ==> m.sync_delete_files@.len() == 0
            && m.sync_delete_dirs@.len() == 0,
{
    let gone = removals(order::ranked(scan.dirs), scan.files, index, false);
    order::law_ranked(
        gone.regular.map_values(|e: DestinationEntry| delete_regular(e))
            + gone.symlinks.map_values(|e: DestinationEntry| delete_symlink(e)),
    );
    order::law_ranked(gone.dirs.map_values(|e: DestinationEntry| delete_dir(e)));
}

/// A manifest has every directory of the source once, each behind those above it.
pub proof fn law_a_manifest_has_every_directory(
    r: PreScan,
    src_base: Seq<char>,
    scan: SourceModel,
    index: Option<DestinationIndex>,
    root_is_dir: bool,
    o: DirScanOptions,
    m: TransferManifest,
)
    requires
        is_directory_plan(r, src_base, scan, index, root_is_dir, o),
        r.transfer_manifest == Some(m),
    ensures
        m.dirs@.to_multiset() == scan.dirs.to_multiset(),
        m.dir_times@.to_multiset() == scan.dir_times.to_multiset(),
        forall|i: int, j: int|
            #![trigger m.dirs@[i], m.dirs@[j]]
            0 <= i < m.dirs@.len() && 0 <= j < m.dirs@.len() && m.dirs@[i].rel@.len() > 0
                && is_above(m.dirs@[i].rel@, m.dirs@[j].rel@) ==> i < j,
{
    order::law_ranked(scan.dirs);
    order::law_ranked(scan.dir_times);
    assert forall|i: int, j: int|
        #![trigger m.dirs@[i], m.dirs@[j]]
        0 <= i < m.dirs@.len() && 0 <= j < m.dirs@.len() && m.dirs@[i].rel@.len() > 0 && is_above(
            m.dirs@[i].rel@,
            m.dirs@[j].rel@,
        ) implies i < j by {
        let a = m.dirs@[i].rel@;
        let b = m.dirs@[j].rel@;
        let head = a.push('/');
        assert(b.take(head.len() as int) == head);
        lemma_slashes_grow(b, head.len() as int);
        assert(head.drop_last() == a);
        assert(m.dirs@[i].before(m.dirs@[j]));
        if j <= i {
            assert(!m.dirs@[i].before(m.dirs@[j]));
        }
    }
}

/// What a plan without a single change tells: nothing to make, to copy or to remove, and no
/// bytes; and a plan that copies a regular file, makes a directory or removes something
/// tells that it changes something.
pub proof fn law_a_plan_tells_whether_it_changes(
    r: PreScan,
    src_base: Seq<char>,
    scan: SourceModel,
    index: Option<DestinationIndex>,
    root_is_dir: bool,
    o: DirScanOptions,
)
    requires
        is_directory_plan(r, src_base, scan, index, root_is_dir, o),
    ensures
        r.add_files > 0 || r.mod_files > 0 ==> r.has_itemized_changes,
        (r.transfer_manifest matches Some(m) && (m.sync_delete_files@.len() > 0
            || m.sync_delete_dirs@.len() > 0)) ==> r.has_itemized_changes,
        index is Some && !r.has_itemized_changes && o.build_manifest ==> r.planned_bytes == 0
            && r.transfer_manifest->0.sync_delete_files@.len() == 0
            && r.transfer_manifest->0.sync_delete_dirs@.len() == 0,
        o.include_root && index is None ==> r.has_itemized_changes,
        r.add_files + r.mod_files <= r.total_regular_files->0 || regular_count(scan.files)
            > u64::MAX,
        r.total_regular_files is Some && r.total_regular_bytes is Some && r.total_dirs is Some,
        scan.files.len() <= u64::MAX ==> r.total_regular_files->0 == regular_count(scan.files),
        regular_bytes(scan.files) <= u64::MAX ==> r.total_regular_bytes->0 == regular_bytes(
            scan.files,
        ),
        r.scan_complete ==> scan.complete && (index matches Some(x) ==> x.whole()),
        !r.scan_complete ==> !scan.complete || (index matches Some(x) && !x.whole()),
{
    let dest = dest_of(index);
    let missing = missing_dirs(order::ranked(scan.dirs), dest);
    let gone = removals(order::ranked(scan.dirs), scan.files, index, o.sync_mode);
    order::law_ranked(
        gone.regular.map_values(|e: DestinationEntry| delete_regular(e))
            + gone.symlinks.map_values(|e: DestinationEntry| delete_symlink(e)),
    );
    order::law_ranked(gone.dirs.map_values(|e: DestinationEntry| delete_dir(e)));
    law_totals_are_bounded(scan.files, dest, missing, src_base, o);
    lemma_no_change_no_bytes(scan.files, dest, missing, src_base, o);
}

proof fn lemma_no_change_no_bytes(
    files: Seq<ScannedFileEntry>,
    dest: Option<Map<Seq<char>, DestinationEntry>>,
    missing: Set<Seq<char>>,
    src_base: Seq<char>,
    o: DirScanOptions,
)
    ensures
        ({
            let t = file_totals(files, dest, missing, src_base, o);
            t.added == 0 && t.modified == 0 ==> t.planned == 0
        }),
    decreases files.len(),
{
    if files.len() > 0 {
        lemma_no_change_no_bytes(files.drop_last(), dest, missing, src_base, o);
    }
}

/// A file that a walk finds in the source is scanned as it was walked, unless it lies in
/// what is left out: its path, its size, its identity and its time. A symbolic link keeps
/// its target.
pub proof fn law_walked_files_are_scanned(
    walked: Seq<Option<WalkedEntry>>,
    exclude_rel: Option<Seq<char>>,
    collect_dir_times: bool,
    k: int,
)
    requires
        0 <= k < walked.len(),
        walked[k] is Some,
        walked[k]->0.utf8,
        exclude_rel matches Some(x) ==> walked[k]->0.rel@ != x && !(x.len() < walked[k]->0.rel@.len()
            && walked[k]->0.rel@.take(x.len() as int) == x && walked[k]->0.rel@[x.len() as int]
            == '/'),
    ensures
        ({
            let scan = scanned_source(walked, exclude_rel, collect_dir_times);
            let w = walked[k]->0;
            &&& w.kind is File ==> exists|i: int|
                0 <= i < scan.files.len() && (#[trigger] scan.files[i]).rel@ == w.rel@
                    && !scan.files[i].is_symlink && scan.files[i].size == w.size
                    && scan.files[i].mtime == w.mtime && scan.files[i].dev == w.dev
                    && scan.files[i].ino == w.ino && scan.files[i].nlink == w.nlink
            &&& w.kind is Symlink ==> exists|i: int|
                0 <= i < scan.files.len() && (#[trigger] scan.files[i]).rel@ == w.rel@
                    && scan.files[i].is_symlink && scan.files[i].link_target == w.link_target
            &&& w.kind is Dir && w.rel@.len() > 0 ==> exists|i: int|
                0 <= i < scan.dirs.len() && (#[trigger] scan.dirs[i]).rel@ == w.rel@
            &&& w.kind is Dir && collect_dir_times ==> exists|i: int|
                0 <= i < scan.dir_times.len() && (#[trigger] scan.dir_times[i]).rel@ == w.rel@
                    && scan.dir_times[i].atime == w.restore_atime && scan.dir_times[i].mtime
                    == w.restore_mtime
        }),
    decreases walked.len(),
{
    let front = walked.drop_last();
    let before = scanned_source(front, exclude_rel, collect_dir_times);
    let scan = scanned_source(walked, exclude_rel, collect_dir_times);
    let w = walked[k]->0;
    if k < front.len() {
        assert(front[k] == walked[k]);
        law_walked_files_are_scanned(front, exclude_rel, collect_dir_times, k);
        assert(forall|i: int|
            0 <= i < before.files.len() ==> #[trigger] before.files[i] == scan.files[i]);
        assert(forall|i: int| 0 <= i < before.dirs.len() ==> #[trigger] before.dirs[i] == scan.dirs[i]);
        assert(forall|i: int|
            0 <= i < before.dir_times.len() ==> #[trigger] before.dir_times[i]
                == scan.dir_times[i]);
    } else {
        if let Some(x) = exclude_rel {
            if text::begins(w.rel@, x.push('/')) {
                assert(w.rel@.take(x.len() as int + 1) == x.push('/'));
                assert(w.rel@.take(x.len() as int + 1)[x.len() as int] == '/');
                assert(w.rel@.take(x.len() as int) == x.push('/').take(x.len() as int));
                assert(x.push('/').take(x.len() as int) == x);
            }
        }
        if w.kind is File || w.kind is Symlink {
            assert(scan.files[scan.files.len() - 1].rel@ == w.rel@);
        }
        if w.kind is Dir && w.rel@.len() > 0 {
            assert(scan.dirs[scan.dirs.len() - 1].rel@ == w.rel@);
        }
        if w.kind is Dir && collect_dir_times {
            assert(scan.dir_times[scan.dir_times.len() - 1].rel@ == w.rel@);
        }
    }
}

/// A walk that could not read something, or that found something which is no file,
/// directory or symbolic link, is not complete; nor is it where a path is not text.
pub proof fn law_a_scan_tells_what_it_missed(
    walked: Seq<Option<WalkedEntry>>,
    exclude_rel: Option<Seq<char>>,
    collect_dir_times: bool,
    k: int,
)
    requires
        0 <= k < walked.len(),
        walked[k] is None || !walked[k]->0.utf8 || (exclude_rel is None && (
        walked[k]->0.kind is Other || walked[k]->0.kind is Unreadable)),
    ensures
        !scanned_source(walked, exclude_rel, collect_dir_times).complete,
    decreases walked.len(),
{
    let front = walked.drop_last();
    if k < front.len() {
        assert(front[k] == walked[k]);
        law_a_scan_tells_what_it_missed(front, exclude_rel, collect_dir_times, k);
    }
}

/// A scan holds only what was walked, and nothing of what is left out.
pub proof fn law_only_walked_files_are_scanned(
    walked: Seq<Option<WalkedEntry>>,
    exclude_rel: Option<Seq<char>>,
    collect_dir_times: bool,
    i: int,
)
    requires
        0 <= i < scanned_source(walked, exclude_rel, collect_dir_times).files.len(),
    ensures
        ({
            let e = scanned_source(walked, exclude_rel, collect_dir_times).files[i];
            &&& exists|k: int|
                0 <= k < walked.len() && (#[trigger] walked[k]) is Some && walked[k]->0.rel@
                    == e.rel@ && (if e.is_symlink {
                    walked[k]->0.kind is Symlink
                } else {
                    walked[k]->0.kind is File
                })
            &&& exclude_rel matches Some(x) ==> e.rel@ != x && !(x.len() < e.rel@.len()
                && e.rel@.take(x.len() as int) == x && e.rel@[x.len() as int] == '/')
        }),
    decreases walked.len(),
{
    if walked.len() > 0 {
        let front = walked.drop_last();
        let n = walked.len() - 1;
        let before = scanned_source(front, exclude_rel, collect_dir_times);
        let scan = scanned_source(walked, exclude_rel, collect_dir_times);
        let e = scan.files[i];
        if i < before.files.len() {
            law_only_walked_files_are_scanned(front, exclude_rel, collect_dir_times, i);
            assert(before.files[i] == e);
            let k = choose|k: int|
                0 <= k < front.len() && (#[trigger] front[k]) is Some && front[k]->0.rel@ == e.rel@
                    && (if e.is_symlink {
                    front[k]->0.kind is Symlink
                } else {
                    front[k]->0.kind is File
                });
            assert(walked[k] == front[k]);
        } else {
            assert(walked[n] is Some);
            if let Some(x) = exclude_rel {
                if x.len() < e.rel@.len() && e.rel@.take(x.len() as int) == x
                    && e.rel@[x.len() as int] == '/' {
                    assert(e.rel@.take(x.len() as int + 1) == x.push('/'));
                }
            }
        }
    }
}

fn count_regular(files: &Vec<ScannedFileEntry>) -> (r: (u64, u64))
    requires
        regular_bytes(files@) <= u64::MAX,
    ensures
        r.0 == regular_count(files@),
        r.1 == regular_bytes(files@),
{
    let mut n: u64 = 0;
    let mut bytes: u64 = 0;
    let mut i: usize = 0;
    assert(files@.take(0) == Seq::<ScannedFileEntry>::empty());
    while i < files.len()
        invariant
            i <= files@.len(),
            regular_bytes(files@) <= u64::MAX,
            n == regular_count(files@.take(i as int)),
            n <= i,
            bytes == regular_bytes(files@.take(i as int)),
        decreases files@.len() - i,
    {
        proof {
            assert(files@.take(i + 1).drop_last() == files@.take(i as int));
            lemma_bytes_grow(files@, i + 1);
        }
        if !files[i].is_symlink {
            n = n + 1;
            bytes = bytes + files[i].size;
        }
        i = i + 1;
    }
    assert(files@.take(files@.len() as int) == files@);
    (n, bytes)
}

/// Plans the transfer of a directory from what the walks of source and
/// destination found.
#[verifier::spinoff_prover]
#[verifier::rlimit(40)]
pub fn pre_scan_directory(
    src_base: &str,
    scan: SourceScan,
    index: Option<DestinationIndex>,
    root_is_dir: bool,
    o: DirScanOptions,
) -> (r: PreScan)
    requires
        index matches Some(i) ==> i.wf(),
        scan.dirs@.len() < usize::MAX,
        regular_bytes(scan.files@) <= u64::MAX,
    ensures
        is_directory_plan(r, src_base@, scan@, index, root_is_dir, o),
{
    let ghost whole = scan@;
    let ghost dest = dest_of(index);
    let files = scan.files;
    let mut out = PreScan::default();
    let whole_index = match &index {
        Some(index) => index.is_complete(),
        None => true,
    };
    out.scan_complete = scan.complete && whole_index;
    let (regular_files, regular_size) = count_regular(&files);
    out.total_regular_files = Some(regular_files);
    out.total_regular_bytes = Some(regular_size);
    if o.build_source_display_paths {
        let shown = list_shown_paths(&scan.dirs, &files, src_base, o);
        proof {
            shown.lemma_listed();
        }
        out.source_display_paths = shown.into_names();
    } else {
        assert(text::texts(out.source_display_paths@) == Seq::<Seq<char>>::empty());
        assert(Seq::<Seq<char>>::empty().to_set() == Set::<Seq<char>>::empty());
    }
    proof {
        order::law_ranked(scan.dirs@);
    }
    let dirs = order::sort(scan.dirs);
    let dir_set = dir_names(&dirs);
    let root: u64 = if o.include_root {
        1
    } else {
        0
    };
    let total_dirs: u64 = dirs.len() as u64 + root;
    out.total_dirs = Some(total_dirs);
    let missing = find_missing_dirs(&dirs, &index);
    let ghost missing_set = missing@;
    let mut preview = preview_dirs(&dirs, &missing, index.is_none(), src_base, o);
    let missing_count: u64 = missing.len() as u64;
    let t = classify_files(&files, &index, &missing, src_base, o);
    let ghost totals = t.model();
    out.add_files = t.added;
    out.mod_files = t.modified;
    out.planned_bytes = t.planned;
    out.file_relation_breakdown = t.breakdown;
    let new_root: u64 = if o.include_root && !root_is_dir {
        1
    } else {
        0
    };
    out.add_dirs = missing_count + new_root;
    let mut touched = t.parents;
    add_missing_chains(&mut touched, &missing, o.include_root);
    let modified_count: u64 = count_modified_dirs(
        &touched,
        &dir_set,
        Ghost(dirs@),
        &missing,
        o.include_root,
        root_is_dir,
    );
    let rest: u64 = total_dirs.saturating_sub(out.add_dirs);
    out.mod_dirs = if modified_count <= rest {
        modified_count
    } else {
        rest
    };
    let mut delete_files: Vec<ManifestDeleteEntry> = Vec::new();
    let mut delete_dirs: Vec<ManifestDeleteDirEntry> = Vec::new();
    let ghost gone = removals(dirs@, files@, index, o.sync_mode);
    if let Some(index) = &index {
        let dest_files: u64 = index.count_kind(DestinationKind::Regular);
        out.uncollided_files = dest_files.saturating_sub(regular_files.saturating_sub(t.added));
        let dest_dirs: u64 = index.count_kind(DestinationKind::Directory);
        let by_scan: u64 = index.count_kind_outside(DestinationKind::Directory, &dir_set);
        proof {
            let f = |e: DestinationEntry|
                e.kind == DestinationKind::Directory && !dir_set@.contains(e.rel@);
            let g = |e: DestinationEntry|
                e.kind == DestinationKind::Directory && !has_dir(dirs@, e.rel@);
            assert(f =~= g);
        }
        let kept: u64 = (dirs.len() as u64).saturating_sub(missing_count);
        let by_overlap: u64 = dest_dirs.saturating_sub(kept);
        out.uncollided_dirs = if by_scan >= by_overlap {
            by_scan
        } else {
            by_overlap
        };
        if o.sync_mode {
            let file_set = file_names(&files);
            collect_extra_files(
                index,
                false,
                Ghost(dirs@),
                Ghost(files@),
                &dir_set,
                &file_set,
                src_base,
                o,
                &mut delete_files,
                &mut preview,
            );
            collect_extra_files(
                index,
                true,
                Ghost(dirs@),
                Ghost(files@),
                &dir_set,
                &file_set,
                src_base,
                o,
                &mut delete_files,
                &mut preview,
            );
            collect_extra_dirs(
                index,
                Ghost(dirs@),
                Ghost(files@),
                &dir_set,
                &file_set,
                src_base,
                o,
                &mut delete_dirs,
                &mut preview,
            );
        }
    }
    proof {
        let a = gone.regular.map_values(
            |e: DestinationEntry|
                if false {
                    delete_symlink(e)
                } else {
                    delete_regular(e)
                },
        );
        let b = gone.symlinks.map_values(
            |e: DestinationEntry|
                if true {
                    delete_symlink(e)
                } else {
                    delete_regular(e)
                },
        );
        assert(a == gone.regular.map_values(|e: DestinationEntry| delete_regular(e)));
        assert(b == gone.symlinks.map_values(|e: DestinationEntry| delete_symlink(e)));
        assert(delete_files@ == gone.regular.map_values(|e: DestinationEntry| delete_regular(e))
            + gone.symlinks.map_values(|e: DestinationEntry| delete_symlink(e)));
        assert(delete_dirs@ == gone.dirs.map_values(|e: DestinationEntry| delete_dir(e)));
        order::law_ranked(delete_files@);
        order::law_ranked(delete_dirs@);
    }
    let any_deletes = delete_files.len() > 0 || delete_dirs.len() > 0;
    out.has_itemized_changes = (o.include_root && index.is_none()) || missing_count > 0
        || out.add_files > 0 || out.mod_files > 0 || any_deletes;
    preview.extend(t.changes);
    out.change_preview = preview.into_items();
    if o.build_manifest {
        out.transfer_manifest = Some(
            TransferManifest {
                dirs,
                dir_times: order::sort(scan.dir_times),
                copy_files: order::sort(t.copied),
                identical_files: order::sort(t.identical),
                sync_delete_files: order::sort(delete_files),
                sync_delete_dirs: order::sort(delete_dirs),
            },
        );
    }
    out
}

/// Nothing of the source is counted twice or not at all: the regular files that a plan
/// copies and those that it leaves alone are together all there are, and so are their
/// bytes; the directories are those that are listed, and the root where it is kept.
pub proof fn law_totals_are_what_is_listed(
    r: PreScan,
    src_base: Seq<char>,
    scan: SourceModel,
    index: Option<DestinationIndex>,
    root_is_dir: bool,
    o: DirScanOptions,
)
    requires
        is_directory_plan(r, src_base, scan, index, root_is_dir, o),
        o.build_manifest,
        o.retain_identical_manifest,
        scan.files.len() <= u64::MAX,
        scan.dirs.len() < u64::MAX,
        regular_bytes(scan.files) <= u64::MAX,
    ensures
        ({
            let m = r.transfer_manifest->0;
            &&& r.total_regular_files->0 == listed_regular(m.copy_files@) + listed_regular(
                m.identical_files@,
            )
            &&& r.total_regular_bytes->0 == listed_bytes(m.copy_files@) + listed_bytes(
                m.identical_files@,
            )
            &&& r.total_dirs->0 == m.dirs@.len() + (if o.include_root {
                1nat
            } else {
                0
            })
        }),
{
    let dest = dest_of(index);
    let missing = missing_dirs(order::ranked(scan.dirs), dest);
    let t = file_totals(scan.files, dest, missing, src_base, o);
    lemma_all_is_listed(scan.files, dest, missing, src_base, o);
    lemma_ranked_listed(t.copied);
    lemma_ranked_listed(t.identical);
    law_totals_are_bounded(scan.files, dest, missing, src_base, o);
    order::law_ranked(scan.dirs);
}

proof fn lemma_all_is_listed(
    files: Seq<ScannedFileEntry>,
    dest: Option<Map<Seq<char>, DestinationEntry>>,
    missing: Set<Seq<char>>,
    src_base: Seq<char>,
    o: DirScanOptions,
)
    requires
        o.build_manifest,
        o.retain_identical_manifest,
    ensures
        ({
            let t = file_totals(files, dest, missing, src_base, o);
            &&& regular_bytes(files) == listed_bytes(t.copied) + listed_bytes(t.identical)
            &&& regular_count(files) == listed_regular(t.copied) + listed_regular(t.identical)
        }),
    decreases files.len(),
{
    if files.len() > 0 {
        lemma_all_is_listed(files.drop_last(), dest, missing, src_base, o);
        let before = file_totals(files.drop_last(), dest, missing, src_base, o);
        let x = manifest_entry(files.last());
        assert(before.copied.push(x).drop_last() == before.copied);
        assert(before.identical.push(x).drop_last() == before.identical);
    }
}

/// A preview without a limit of depth shows every file that a plan copies under its path, as new or as
/// modified.
pub proof fn law_previews_show_the_copies(
    r: PreScan,
    src_base: Seq<char>,
    scan: SourceModel,
    index: Option<DestinationIndex>,
    root_is_dir: bool,
    o: DirScanOptions,
    i: int,
)
    requires
        is_directory_plan(r, src_base, scan, index, root_is_dir, o),
        o.build_manifest,
        o.bounded_preview_depth is None,
        0 <= i < scan.files.len(),
        path_is_unique(scan.files, i),
        names_path(r.transfer_manifest->0.copy_files@, scan.files[i].rel@),
    ensures
        exists|k: int|
            0 <= k < r.change_preview@.len() && (#[trigger] r.change_preview@[k]).rel@
                == paths::display_rel(o.include_root, src_base, scan.files[i].rel@) && (
            r.change_preview@[k].kind is NewFile || r.change_preview@[k].kind is ModFile),
{
    let dirs = order::ranked(scan.dirs);
    let dest = dest_of(index);
    let missing = missing_dirs(dirs, dest);
    let t = file_totals(scan.files, dest, missing, src_base, o);
    let gone = removals(dirs, scan.files, index, o.sync_mode);
    let shown = directory_preview(src_base, dirs, dest, t, gone, o);
    let path = paths::display_rel(o.include_root, src_base, scan.files[i].rel@);
    lemma_file_in_manifest(r, src_base, scan, index, root_is_dir, o, i);
    lemma_change_is_shown(scan.files, dest, missing, src_base, o, i);
    assert(t.changes.contains_key(path));
    assert(shown.contains_key(path) && shown[path] == t.changes[path]);
    changes::lemma_listed_change(r.change_preview@, shown, path);
}

proof fn lemma_change_is_shown(
    files: Seq<ScannedFileEntry>,
    dest: Option<Map<Seq<char>, DestinationEntry>>,
    missing: Set<Seq<char>>,
    src_base: Seq<char>,
    o: DirScanOptions,
    i: int,
)
    requires
        o.bounded_preview_depth is None,
        0 <= i < files.len(),
        file_change(files[i], dest, missing, o) is Some,
    ensures
        ({
            let t = file_totals(files, dest, missing, src_base, o);
            let path = paths::display_rel(o.include_root, src_base, files[i].rel@);
            &&& t.changes.contains_key(path)
            &&& t.changes[path] is NewFile || t.changes[path] is ModFile
        }),
    decreases files.len(),
{
    let front = files.drop_last();
    lemma_changes_are_of_files(front, dest, missing, src_base, o);
    lemma_changes_are_of_files(files, dest, missing, src_base, o);
    if i < front.len() {
        lemma_change_is_shown(front, dest, missing, src_base, o, i);
    }
}

proof fn lemma_changes_are_of_files(
    files: Seq<ScannedFileEntry>,
    dest: Option<Map<Seq<char>, DestinationEntry>>,
    missing: Set<Seq<char>>,
    src_base: Seq<char>,
    o: DirScanOptions,
)
    requires
        o.bounded_preview_depth is None,
    ensures
        ({
            let t = file_totals(files, dest, missing, src_base, o);
            forall|p: Seq<char>| #[trigger]
                t.changes.contains_key(p) ==> t.changes[p] is NewFile || t.changes[p] is ModFile
        }),
    decreases files.len(),
{
    if files.len() > 0 {
        lemma_changes_are_of_files(files.drop_last(), dest, missing, src_base, o);
        let change = file_change(files.last(), dest, missing, o);
        assert(change is Some ==> change->0 is NewFile || change->0 is ModFile);
    }
}

/// A plan for a source that is left alone plans nothing and lists nothing.
pub proof fn law_empty_plans_do_nothing(r: PreScan)
    requires
        is_empty_plan(r),
    ensures
        r.planned_bytes == 0 && r.planned_bytes_exact,
        r.add_files == 0 && r.mod_files == 0 && r.add_dirs == 0 && r.mod_dirs == 0,
        r.uncollided_files == 0 && r.uncollided_dirs == 0,
        r.total_regular_files is None && r.total_regular_bytes is None && r.total_dirs is None,
        r.change_preview@.len() == 0 && r.source_display_paths@.len() == 0,
        !r.has_itemized_changes,
        r.transfer_manifest is None,
{
}

/// A plan that says that something changes makes a directory, copies a file, or removes
/// something.
pub proof fn law_changes_are_changes(
    r: PreScan,
    src_base: Seq<char>,
    scan: SourceModel,
    index: Option<DestinationIndex>,
    root_is_dir: bool,
    o: DirScanOptions,
)
    requires
        is_directory_plan(r, src_base, scan, index, root_is_dir, o),
        r.has_itemized_changes,
        o.build_manifest,
    ensures
        r.add_dirs > 0 || r.add_files > 0 || r.mod_files > 0
            || r.transfer_manifest->0.sync_delete_files@.len() > 0
            || r.transfer_manifest->0.sync_delete_dirs@.len() > 0 || (o.include_root && index
            is None),
{
    let gone = removals(order::ranked(scan.dirs), scan.files, index, o.sync_mode);
    order::law_ranked(
        gone.regular.map_values(|e: DestinationEntry| delete_regular(e))
            + gone.symlinks.map_values(|e: DestinationEntry| delete_symlink(e)),
    );
    order::law_ranked(gone.dirs.map_values(|e: DestinationEntry| delete_dir(e)));
}

} // verus!
