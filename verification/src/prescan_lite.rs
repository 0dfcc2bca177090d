//! Plans that need less than a full scan: a tree whose destination is missing,
//! and a single file.

use crate::changes::{self, ChangeMap};
use crate::domain::{
    ChangeItem, ChangeKind, DstObjKind, FileRelationBreakdown, MergeCollisionPolicy,
};
use crate::order;
use crate::paths;
use crate::policy;
use crate::prescan::{self, PreScan};
use crate::scanner::{DestinationEntry, DestinationIndex, DestinationKind, WalkKind, WalkedEntry};
use crate::table::NameSet;
use crate::text;
use vstd::prelude::*;

verus! {

/// What a quick scan has found so far.
#[verifier::ext_equal]
pub struct LiteModel {
    pub files: u64,
    pub dirs: u64,
    pub complete: bool,
    pub preview: Map<Seq<char>, ChangeKind>,
    pub shown: Set<Seq<char>>,
}

/// How a quick scan is to be made.
#[derive(Clone, Copy)]
pub struct LiteOptions<'a> {
    pub include_root: bool,
    pub src_base: &'a str,
    pub exclude_rel: Option<&'a str>,
    pub build_source_display_paths: bool,
    pub bounded_preview_depth: Option<usize>,
}

/// Whether the scan looks at an entry's path.
pub open spec fn path_matters(o: LiteOptions, depth: usize) -> bool {
    ||| o.exclude_rel is Some
    ||| o.build_source_display_paths
    ||| o.bounded_preview_depth is None
    ||| depth <= o.bounded_preview_depth->0 + (if o.include_root {
        1int
    } else {
        0int
    })
}

/// The name under which an entry is shown.
pub open spec fn lite_shown(o: LiteOptions, e: WalkedEntry) -> Seq<char> {
    paths::display_rel(o.include_root, o.src_base@, e.rel@)
}

/// The quick scan with one more entry.
pub open spec fn lite_step(m: LiteModel, walked: Option<WalkedEntry>, o: LiteOptions) -> LiteModel {
    match walked {
        None => LiteModel { complete: false, ..m },
        Some(e) => if !e.utf8 {
            LiteModel { complete: false, ..m }
        } else if e.depth == 0 || (o.exclude_rel is Some && paths::matches_prefix(
            e.rel@,
            o.exclude_rel->0@,
        )) {
            m
        } else {
            let is_dir = e.kind == WalkKind::Dir;
            let is_link = e.kind == WalkKind::Symlink;
            let plain = is_dir || is_link || e.kind == WalkKind::File;
            let counted = LiteModel {
                dirs: if is_dir {
                    crate::domain::sat_add(m.dirs, 1)
                } else {
                    m.dirs
                },
                files: if !is_dir && !is_link {
                    crate::domain::sat_add(m.files, 1)
                } else {
                    m.files
                },
                complete: m.complete && plain,
                ..m
            };
            if !plain || !path_matters(o, e.depth) {
                counted
            } else {
                let shown = lite_shown(o, e);
                let trimmed = text::trim_end_char(shown, '/');
                LiteModel {
                    shown: if o.build_source_display_paths {
                        m.shown.insert(trimmed)
                    } else {
                        m.shown
                    },
                    preview: changes::with_change(
                        m.preview,
                        if is_dir {
                            trimmed.push('/')
                        } else {
                            shown
                        },
                        if is_dir {
                            ChangeKind::NewDir
                        } else {
                            ChangeKind::NewFile
                        },
                        o.bounded_preview_depth,
                    ),
                    ..counted
                }
            }
        },
    }
}

/// Where a quick scan starts.
pub open spec fn lite_start(o: LiteOptions) -> LiteModel {
    LiteModel {
        files: 0,
        dirs: if o.include_root {
            1
        } else {
            0
        },
        complete: true,
        preview: if o.include_root && o.src_base@.len() > 0 {
            changes::with_change(
                Map::empty(),
                o.src_base@.push('/'),
                ChangeKind::NewDir,
                o.bounded_preview_depth,
            )
        } else {
            Map::empty()
        },
        shown: Set::empty(),
    }
}

/// The quick scan of a walk.
pub open spec fn lite_scan(walked: Seq<Option<WalkedEntry>>, o: LiteOptions) -> LiteModel
    decreases walked.len(),
{
    if walked.len() == 0 {
        lite_start(o)
    } else {
        lite_step(lite_scan(walked.drop_last(), o), walked.last(), o)
    }
}

/// Whether the entries of a walk are a directory and what is below it.
pub open spec fn is_rooted(walked: Seq<Option<WalkedEntry>>) -> bool {
    forall|i: int|
        0 <= i < walked.len() ==> ((#[trigger] walked[i]) matches Some(e) ==> {
            &&& e.depth == 0 <==> e.rel@.len() == 0
            &&& e.depth == 0 ==> e.kind == WalkKind::Dir
        })
}

/// A quick scan that is complete counts what a full scan of the same walk
/// counts, and the full scan is complete as well.
pub proof fn law_quick_scan_counts_alike(
    walked: Seq<Option<WalkedEntry>>,
    o: LiteOptions,
    collect_dir_times: bool,
)
    requires
        is_rooted(walked),
        lite_scan(walked, o).complete,
        walked.len() < u64::MAX,
    ensures
        ({
            let quick = lite_scan(walked, o);
            let full = prescan::scanned_source(
                walked,
                prescan::opt_str(o.exclude_rel),
                collect_dir_times,
            );
            &&& full.complete
            &&& quick.files == prescan::regular_count(full.files)
            &&& quick.dirs == full.dirs.len() + (if o.include_root {
                1int
            } else {
                0int
            })
            &&& quick.files + quick.dirs <= walked.len() + 1
        }),
    decreases walked.len(),
{
    if walked.len() > 0 {
        let front = walked.drop_last();
        assert forall|i: int| 0 <= i < front.len() implies ((#[trigger] front[i]) matches Some(
            e,
        ) ==> {
            &&& e.depth == 0 <==> e.rel@.len() == 0
            &&& e.depth == 0 ==> e.kind == WalkKind::Dir
        }) by {
            assert(front[i] == walked[i]);
        }
        law_quick_scan_counts_alike(front, o, collect_dir_times);
        assert(walked[walked.len() - 1] == walked.last());
        let exclude = prescan::opt_str(o.exclude_rel);
        let before = prescan::scanned_source(front, exclude, collect_dir_times);
        let full = prescan::scanned_source(walked, exclude, collect_dir_times);
        if full.files.len() > before.files.len() {
            assert(full.files.drop_last() == before.files);
        }
    }
}

/// The plan of a quick scan.
pub open spec fn is_lite_plan(r: PreScan, m: LiteModel) -> bool {
    &&& r.scan_complete == m.complete
    &&& r.planned_bytes == 0
    &&& !r.planned_bytes_exact
    &&& r.total_regular_files == Some(m.files)
    &&& r.total_regular_bytes is None
    &&& r.total_dirs == Some(m.dirs)
    &&& r.add_files == m.files
    &&& r.mod_files == 0
    &&& r.uncollided_files == 0
    &&& r.add_dirs == m.dirs
    &&& r.mod_dirs == 0
    &&& r.uncollided_dirs == 0
    &&& changes::lists(r.change_preview@, m.preview)
    &&& text::texts(r.source_display_paths@).no_duplicates()
    &&& text::texts(r.source_display_paths@).to_set() == m.shown
    &&& r.has_itemized_changes == (m.preview.dom() != Set::<Seq<char>>::empty())
    &&& r.transfer_manifest is None
    &&& r.file_relation_breakdown == crate::domain::empty_breakdown()
}

/// Plans the copy of a tree to a missing destination from names and kinds
/// alone: everything is new, and no byte is counted.
pub fn pre_scan_new_tree_lite(walked: Vec<Option<WalkedEntry>>, o: LiteOptions) -> (r: PreScan)
    ensures
        is_lite_plan(r, lite_scan(walked@, o)),
{
    let ghost all = walked@;
    let mut rest = walked;
    order::reverse(&mut rest);
    let mut preview = ChangeMap::new();
    if o.include_root && !o.src_base.is_empty() {
        let mut root = text::copy(o.src_base);
        root.push('/');
        changes::insert_preview_change(
            &mut preview,
            root,
            ChangeKind::NewDir,
            o.bounded_preview_depth,
        );
    }
    let mut shown_set = NameSet::new();
    let mut files: u64 = 0;
    let mut dirs: u64 = if o.include_root {
        1
    } else {
        0
    };
    let mut complete = true;
    let ghost mut n: int = 0;
    assert(all.take(0) == Seq::<Option<WalkedEntry>>::empty());
    while rest.len() > 0
        invariant
            0 <= n <= all.len(),
            rest@ == all.skip(n).reverse(),
            preview.wf(),
            shown_set.wf(),
            lite_scan(all.take(n), o) == (LiteModel {
                files,
                dirs,
                complete,
                preview: preview@,
                shown: shown_set@,
            }),
        decreases rest@.len(),
    {
        let item = rest.pop().unwrap();
        proof {
            assert(item == all[n]) by {
                assert(all.skip(n).reverse().last() == all.skip(n)[0]);
            }
            assert(all.take(n + 1).drop_last() == all.take(n));
            assert(all.take(n + 1).last() == item);
            assert(all.skip(n).reverse().drop_last() == all.skip(n + 1).reverse());
            n = n + 1;
        }
        match item {
            None => {
                complete = false;
            },
            Some(e) => {
                let excluded = match o.exclude_rel {
                    Some(prefix) => paths::rel_matches_prefix(e.rel.as_str(), prefix),
                    None => false,
                };
                if !e.utf8 {
                    complete = false;
                } else if e.depth > 0 && !excluded {
                    let is_dir = match e.kind {
                        WalkKind::Dir => true,
                        _ => false,
                    };
                    let is_link = match e.kind {
                        WalkKind::Symlink => true,
                        _ => false,
                    };
                    let is_file = match e.kind {
                        WalkKind::File => true,
                        _ => false,
                    };
                    if is_dir {
                        dirs = dirs.saturating_add(1);
                    } else if !is_link {
                        files = files.saturating_add(1);
                    }
                    let near = match o.bounded_preview_depth {
                        Some(depth) => e.depth <= depth || (o.include_root && e.depth - 1 <= depth),
                        None => true,
                    };
                    let matters = o.exclude_rel.is_some() || o.build_source_display_paths || near;
                    if !is_dir && !is_link && !is_file {
                        complete = false;
                    } else if matters {
                        let shown = paths::map_display_rel(
                            o.include_root,
                            o.src_base,
                            e.rel.as_str(),
                        );
                        let trimmed = text::trim_end(
                            text::to_chars(shown.as_str()).as_slice(),
                            '/',
                        );
                        if o.build_source_display_paths {
                            let _ = shown_set.insert(text::from_chars(trimmed.as_slice()));
                        }
                        if is_dir {
                            let mut dir = text::from_chars(trimmed.as_slice());
                            dir.push('/');
                            changes::insert_preview_change(
                                &mut preview,
                                dir,
                                ChangeKind::NewDir,
                                o.bounded_preview_depth,
                            );
                        } else {
                            changes::insert_preview_change(
                                &mut preview,
                                shown,
                                ChangeKind::NewFile,
                                o.bounded_preview_depth,
                            );
                        }
                    }
                }
            },
        }
    }
    assert(all.take(all.len() as int) == all);
    let mut out = PreScan::default();
    out.planned_bytes_exact = false;
    out.scan_complete = complete;
    out.total_regular_files = Some(files);
    out.total_dirs = Some(dirs);
    out.add_files = files;
    out.add_dirs = dirs;
    out.has_itemized_changes = !preview.is_empty();
    out.change_preview = preview.into_items();
    proof {
        shown_set.lemma_listed();
    }
    out.source_display_paths = shown_set.into_names();
    out
}

/// What is known of a source file.
pub struct SourceFileFacts {
    pub is_symlink: bool,
    pub size: u64,
    pub mtime: Option<i128>,
    pub link_target: Option<String>,
}

/// What stands at a file's destination: whether it is a symbolic link, and the
/// size and time of what it leads to, where that can be read.
pub struct DestFileFacts {
    pub is_symlink: bool,
    pub link_target: Option<String>,
    pub followed: Option<(u64, Option<i128>)>,
}

/// Whether a destination kind is a directory that exists.
pub open spec fn is_dir_kind(kind: DstObjKind) -> bool {
    kind == DstObjKind::Dir || kind == DstObjKind::DirExisting
}

fn dir_kind(kind: DstObjKind) -> (r: bool)
    ensures
        r == is_dir_kind(kind),
{
    match kind {
        DstObjKind::Dir | DstObjKind::DirExisting => true,
        _ => false,
    }
}

/// The path that a file is written to, and its name in the preview.
pub open spec fn file_target(dst_path: Seq<char>, kind: DstObjKind, src_name: Seq<char>) -> (
    Seq<char>,
    Seq<char>,
) {
    if is_dir_kind(kind) {
        (paths::joined_path(text::trim_end_char(dst_path, '/'), src_name), src_name)
    } else {
        (
            dst_path,
            match paths::last_name(dst_path) {
                Some(name) => name,
                None => src_name,
            },
        )
    }
}

/// Finds the path that a file is written to, and its name in the preview.
pub fn destination_of_file(dst_path: &str, kind: DstObjKind, src_name: &str) -> (r: (String, String))
    ensures
        (r.0@, r.1@) == file_target(dst_path@, kind, src_name@),
{
    if dir_kind(kind) {
        let base = text::trim_end(text::to_chars(dst_path).as_slice(), '/');
        let base = text::from_chars(base.as_slice());
        (
            paths::join_path(base.as_str(), src_name),
            text::copy(src_name),
        )
    } else {
        let name = match paths::file_name(dst_path) {
            Some(name) => name,
            None => text::copy(src_name),
        };
        (text::copy(dst_path), name)
    }
}

/// The directory that a file is written into.
pub open spec fn file_target_root(dst_path: Seq<char>, kind: DstObjKind) -> Option<Seq<char>> {
    if is_dir_kind(kind) {
        Some(text::trim_end_char(dst_path, '/'))
    } else {
        match paths::parent_of(dst_path) {
            Some(p) => if p.len() == 0 {
                Some("."@)
            } else {
                Some(p)
            },
            None => None,
        }
    }
}

/// Finds the directory that a file is written into.
pub fn root_of_file(dst_path: &str, kind: DstObjKind) -> (r: Option<String>)
    ensures
        paths::opt_text(r) == file_target_root(dst_path@, kind),
{
    if dir_kind(kind) {
        let base = text::trim_end(text::to_chars(dst_path).as_slice(), '/');
        Some(text::from_chars(base.as_slice()))
    } else {
        match paths::parent(dst_path) {
            Some(p) => if p.as_str().is_empty() {
                Some(text::copy("."))
            } else {
                Some(p)
            },
            None => None,
        }
    }
}

/// How a file is to be planned.
#[derive(Clone, Copy)]
pub struct FileScanOptions {
    pub build_source_display_paths: bool,
    pub collect_file_relation_breakdown: bool,
    pub replace_dest_symlink: bool,
    pub merge_collision_policy: MergeCollisionPolicy,
    /// The source lies in the destination directory itself.
    pub same_directory: bool,
    /// An incomplete index of the destination directory makes the plan
    /// incomplete.
    pub index_must_be_complete: bool,
}

/// The size and time that a file is compared with.
pub open spec fn file_counterpart(dst: Option<DestFileFacts>, replace_dest_symlink: bool) -> Option<
    (u64, Option<i128>),
> {
    match dst {
        Some(d) => if replace_dest_symlink && d.is_symlink {
            None
        } else {
            d.followed
        },
        None => None,
    }
}

/// What the transfer does to a single file.
pub open spec fn single_file_change(
    src: SourceFileFacts,
    dst: Option<DestFileFacts>,
    o: FileScanOptions,
) -> Option<ChangeKind> {
    let found = file_counterpart(dst, o.replace_dest_symlink);
    if src.is_symlink {
        match dst {
            Some(d) => if d.is_symlink && src.link_target is Some && d.link_target is Some
                && src.link_target->0@ == d.link_target->0@ {
                None
            } else {
                Some(ChangeKind::ModFile)
            },
            None => Some(ChangeKind::NewFile),
        }
    } else {
        policy::collision_change(
            o.merge_collision_policy,
            src.size,
            src.mtime,
            dst is Some,
            match found {
                Some(f) => Some(f.0),
                None => None,
            },
            match found {
                Some(f) => f.1,
                None => None,
            },
        )
    }
}

/// The relation of a single file to its counterpart.
pub open spec fn single_file_breakdown(
    src: SourceFileFacts,
    dst: Option<DestFileFacts>,
    o: FileScanOptions,
) -> FileRelationBreakdown {
    let found = file_counterpart(dst, o.replace_dest_symlink);
    if src.is_symlink || !o.collect_file_relation_breakdown || found is None || dst->0.is_symlink {
        crate::domain::empty_breakdown()
    } else {
        let pair = found->0;
        match policy::file_relation(src.size, src.mtime, Some(pair.0), pair.1) {
            Some(b) => b,
            None => crate::domain::empty_breakdown(),
        }
    }
}

/// The names at the destination that belong to the transfer.
pub open spec fn own_names(shown: Seq<char>, src_name: Seq<char>, same_directory: bool) -> Set<
    Seq<char>,
> {
    let a = text::trim_end_char(shown, '/');
    let b = text::trim_end_char(src_name, '/');
    Set::new(|n: Seq<char>| n.len() > 0 && (n == a || (same_directory && n == b)))
}

/// The plan for a single file.
pub open spec fn is_file_plan(
    r: PreScan,
    src: SourceFileFacts,
    src_name: Seq<char>,
    dst_path: Seq<char>,
    kind: DstObjKind,
    dst: Option<DestFileFacts>,
    index: Option<DestinationIndex>,
    o: FileScanOptions,
) -> bool {
    let shown = file_target(dst_path, kind, src_name).1;
    let change = single_file_change(src, dst, o);
    let one: int = if src.is_symlink {
        0
    } else {
        1
    };
    let size = if src.is_symlink {
        0
    } else {
        src.size
    };
    &&& r.scan_complete == (index is Some && o.index_must_be_complete ==> index->0.whole())
    &&& r.planned_bytes == (if change is Some {
        size
    } else {
        0
    })
    &&& r.planned_bytes_exact
    &&& r.total_regular_files == Some(one as u64)
    &&& r.total_regular_bytes == Some(size)
    &&& r.total_dirs == Some(0u64)
    &&& r.add_files == (if change == Some(ChangeKind::NewFile) {
        one
    } else {
        0
    })
    &&& r.mod_files == (if change is Some && change != Some(ChangeKind::NewFile) {
        one
    } else {
        0
    })
    &&& r.uncollided_files == (match index {
        Some(i) => i.listed().filter(
            |e: DestinationEntry|
                e.kind == DestinationKind::Regular && !own_names(
                    shown,
                    src_name,
                    o.same_directory,
                ).contains(e.rel@),
        ).len(),
        None => 0,
    })
    &&& r.add_dirs == 0
    &&& r.mod_dirs == 0
    &&& r.uncollided_dirs == 0
    &&& r.has_itemized_changes == (change is Some)
    &&& match change {
        Some(c) => r.change_preview@.len() == 1 && r.change_preview@[0].kind == c
            && r.change_preview@[0].rel@ == shown,
        None => r.change_preview@.len() == 0,
    }
    &&& text::texts(r.source_display_paths@) == (if o.build_source_display_paths && shown.len()
        > 0 {
        seq![text::trim_end_char(shown, '/')]
    } else {
        Seq::empty()
    })
    &&& r.transfer_manifest is None
    &&& r.file_relation_breakdown == single_file_breakdown(src, dst, o)
}

/// Plans the transfer of a single file. `source` is absent where the source
/// cannot be read; `src_name` is the text of its name, which stands for the exact
/// name also where that is no UTF-8; `index` is the index of the destination
/// directory, where that exists.
pub fn pre_scan_file(
    source: Option<SourceFileFacts>,
    src_name: &str,
    dst_path: &str,
    dst_obj_kind: DstObjKind,
    dst: Option<DestFileFacts>,
    index: Option<&DestinationIndex>,
    o: FileScanOptions,
) -> (r: PreScan)
    ensures
        match source {
            Some(src) => is_file_plan(
                r,
                src,
                src_name@,
                dst_path@,
                dst_obj_kind,
                dst,
                match index {
                    Some(i) => Some(*i),
                    None => None,
                },
                o,
            ),
            None => !r.scan_complete && prescan::is_empty_plan(r),
        },
{
    let mut out = PreScan::default();
    let src = match source {
        Some(src) => src,
        None => {
            out.scan_complete = false;
            return out;
        },
    };
    let size: u64 = if src.is_symlink {
        0
    } else {
        src.size
    };
    let one: u64 = if src.is_symlink {
        0
    } else {
        1
    };
    out.total_regular_files = Some(one);
    out.total_regular_bytes = Some(size);
    out.total_dirs = Some(0);
    let (_, shown) = destination_of_file(dst_path, dst_obj_kind, src_name);
    let trimmed = text::trim_end(text::to_chars(shown.as_str()).as_slice(), '/');
    if let Some(index) = index {
        let mut names = NameSet::new();
        if trimmed.len() > 0 {
            let _ = names.insert(text::from_chars(trimmed.as_slice()));
        }
        if o.same_directory {
            let own = text::trim_end(text::to_chars(src_name).as_slice(), '/');
            if own.len() > 0 {
                let _ = names.insert(text::from_chars(own.as_slice()));
            }
        }
        proof {
            assert(names@ == own_names(shown@, src_name@, o.same_directory));
        }
        if o.index_must_be_complete && !index.is_complete() {
            out.scan_complete = false;
        }
        out.uncollided_files = index.count_kind_outside(DestinationKind::Regular, &names);
    }
    if o.build_source_display_paths && !shown.as_str().is_empty() {
        out.source_display_paths.push(text::from_chars(trimmed.as_slice()));
    }
    assert(text::texts(out.source_display_paths@) == (if o.build_source_display_paths
        && shown@.len() > 0 {
        seq![trimmed@]
    } else {
        Seq::empty()
    }));
    let change = if src.is_symlink {
        match &dst {
            Some(d) => {
                let same = match (&src.link_target, &d.link_target) {
                    (Some(a), Some(b)) => text::equal(a.as_str(), b.as_str()),
                    _ => false,
                };
                if d.is_symlink && same {
                    None
                } else {
                    Some(ChangeKind::ModFile)
                }
            },
            None => Some(ChangeKind::NewFile),
        }
    } else {
        let (link, found) = match &dst {
            Some(d) => if o.replace_dest_symlink && d.is_symlink {
                (d.is_symlink, None)
            } else {
                (d.is_symlink, d.followed)
            },
            None => (false, None),
        };
        let (dst_size, dst_mtime) = match found {
            Some(f) => (Some(f.0), f.1),
            None => (None, None),
        };
        if o.collect_file_relation_breakdown && found.is_some() && !link {
            if let Some(b) = policy::classify_file_relation(
                src.size,
                src.mtime,
                dst_size,
                dst_mtime,
            ) {
                out.file_relation_breakdown = b;
            }
        }
        policy::regular_file_collision_change(
            o.merge_collision_policy,
            src.size,
            src.mtime,
            dst.is_some(),
            dst_size,
            dst_mtime,
        )
    };
    if let Some(kind) = change {
        out.has_itemized_changes = true;
        out.planned_bytes = size;
        let new = match kind {
            ChangeKind::NewFile => true,
            _ => false,
        };
        if new {
            out.add_files = one;
        } else {
            out.mod_files = one;
        }
        out.change_preview.push(ChangeItem { kind, rel: shown });
    }
    out
}

/// A single regular file is new exactly where nothing stands at its place, and counts with
/// its size exactly where it is copied.
pub proof fn law_a_single_file_counts_once(
    r: PreScan,
    src: SourceFileFacts,
    src_name: Seq<char>,
    dst_path: Seq<char>,
    kind: DstObjKind,
    dst: Option<DestFileFacts>,
    index: Option<DestinationIndex>,
    o: FileScanOptions,
)
    requires
        is_file_plan(r, src, src_name, dst_path, kind, dst, index, o),
    ensures
        !src.is_symlink && dst is None ==> r.add_files == 1 && r.mod_files == 0 && r.planned_bytes
            == src.size && r.has_itemized_changes,
        !src.is_symlink && dst is Some ==> r.add_files == 0,
        !src.is_symlink && r.mod_files == 1 ==> r.planned_bytes == src.size,
        !src.is_symlink && r.add_files == 0 && r.mod_files == 0 ==> r.planned_bytes == 0
            && !r.has_itemized_changes && r.change_preview@.len() == 0,
        r.add_files + r.mod_files <= 1,
        src.is_symlink ==> r.add_files == 0 && r.mod_files == 0 && r.planned_bytes == 0,
        r.total_regular_files == Some(
            if src.is_symlink {
                0u64
            } else {
                1u64
            },
        ),
        r.total_regular_bytes == Some(
            if src.is_symlink {
                0u64
            } else {
                src.size
            },
        ),
        r.has_itemized_changes <==> r.change_preview@.len() == 1,
{
}

/// A single regular file with a regular file in its place is copied exactly when the rule
/// says so of the sizes and times of both; where a link in its place is to be replaced,
/// nothing is known of what the link leads to.
pub proof fn law_a_single_file_follows_the_rule(
    src: SourceFileFacts,
    d: DestFileFacts,
    o: FileScanOptions,
)
    requires
        !src.is_symlink,
    ensures
        ({
            let change = single_file_change(src, Some(d), o);
            &&& change is None || change == Some(ChangeKind::ModFile)
            &&& (!d.is_symlink || !o.replace_dest_symlink) ==> (d.followed matches Some(f) ==> change
                == policy::collision_change(
                o.merge_collision_policy,
                src.size,
                src.mtime,
                true,
                Some(f.0),
                f.1,
            ))
            &&& d.is_symlink && o.replace_dest_symlink ==> change == policy::collision_change(
                o.merge_collision_policy,
                src.size,
                src.mtime,
                true,
                None,
                None,
            )
        }),
{
}

/// A single symbolic link is left alone exactly where one to the same known target stands
/// in its place.
pub proof fn law_a_single_link_is_compared_by_target(
    src: SourceFileFacts,
    dst: Option<DestFileFacts>,
    o: FileScanOptions,
)
    requires
        src.is_symlink,
    ensures
        ({
            let change = single_file_change(src, dst, o);
            &&& dst is None <==> change == Some(ChangeKind::NewFile)
            &&& change is None <==> dst is Some && dst->0.is_symlink && src.link_target is Some
                && dst->0.link_target is Some && src.link_target->0@ == dst->0.link_target->0@
        }),
{
}

/// A file goes into an existing directory under its own name, and else to the path that was
/// given.
pub proof fn law_where_a_single_file_goes(
    dst_path: Seq<char>,
    kind: DstObjKind,
    src_name: Seq<char>,
)
    ensures
        kind == DstObjKind::Dir || kind == DstObjKind::DirExisting ==> file_target(
            dst_path,
            kind,
            src_name,
        ).1 == src_name,
        (kind == DstObjKind::Dir || kind == DstObjKind::DirExisting) && dst_path.len() > 0
            && dst_path.last() != '/' ==> file_target(dst_path, kind, src_name).0
            == paths::joined_path(dst_path, src_name) && file_target_root(dst_path, kind) == Some(
            dst_path,
        ),
        kind == DstObjKind::File || kind == DstObjKind::DirNew || kind
            == DstObjKind::FileExistingForDir ==> file_target(dst_path, kind, src_name).0
            == dst_path,
        kind == DstObjKind::File && paths::last_name(dst_path) is Some ==> file_target(
            dst_path,
            kind,
            src_name,
        ).1 == paths::last_name(dst_path)->0,
        kind == DstObjKind::File ==> (paths::parent_of(dst_path) matches Some(p) ==> p.len() > 0
            ==> file_target_root(dst_path, kind) == Some(p)),
{
}

/// A quick scan counts one for every file and every directory below the root that is not
/// left out, and is complete only where all of them are files, directories or links whose
/// path is text.
pub proof fn law_a_quick_scan_counts_every_entry(
    walked: Seq<Option<WalkedEntry>>,
    o: LiteOptions,
    e: WalkedEntry,
)
    ensures
        ({
            let a = lite_scan(walked, o);
            let b = lite_scan(walked.push(Some(e)), o);
            let counts = e.utf8 && e.depth > 0 && (o.exclude_rel matches Some(x) ==> e.rel@ != x@
                && !text::begins(e.rel@, x@.push('/')));
            &&& counts && e.kind is File && a.files < u64::MAX ==> b.files == a.files + 1 && b.dirs
                == a.dirs
            &&& counts && e.kind is Dir && a.dirs < u64::MAX ==> b.dirs == a.dirs + 1 && b.files
                == a.files
            &&& counts && e.kind is Symlink ==> b.dirs == a.dirs && b.files == a.files
            &&& !counts ==> b.dirs == a.dirs && b.files == a.files && b.preview == a.preview
            &&& !e.utf8 ==> !b.complete
            &&& counts && (e.kind is Other || e.kind is Unreadable) ==> !b.complete
            &&& counts && (e.kind is File || e.kind is Dir || e.kind is Symlink) ==> b.complete
                == a.complete
            &&& !lite_scan(walked.push(None), o).complete
        }),
{
    assert(walked.push(Some(e)).drop_last() == walked);
    assert(walked.push(None::<WalkedEntry>).drop_last() == walked);
}

/// A quick scan shows every file below the root that is not left out as new under its path,
/// where the depth has no limit; the root counts as a directory where it is shown.
pub proof fn law_a_quick_scan_shows_every_file(
    walked: Seq<Option<WalkedEntry>>,
    o: LiteOptions,
    e: WalkedEntry,
)
    requires
        o.bounded_preview_depth is None,
        e.utf8 && e.depth > 0,
        o.exclude_rel is None,
        e.kind is File || e.kind is Symlink,
    ensures
        ({
            let b = lite_scan(walked.push(Some(e)), o);
            let path = paths::display_rel(o.include_root, o.src_base@, e.rel@);
            &&& b.preview.contains_key(path)
            &&& !lite_scan(walked, o).preview.contains_key(path) ==> b.preview[path] is NewFile
            &&& o.include_root ==> lite_start(o).dirs == 1
            &&& !o.include_root ==> lite_start(o).dirs == 0
            &&& lite_start(o).files == 0 && lite_start(o).complete
        }),
{
    assert(walked.push(Some(e)).drop_last() == walked);
}

/// A quick scan tells how many files and directories it found, all of them as added; it
/// claims no bytes and has no manifest.
pub proof fn law_quick_plans_only_count(r: PreScan, m: LiteModel)
    requires
        is_lite_plan(r, m),
    ensures
        r.total_regular_files == Some(r.add_files),
        r.total_dirs == Some(r.add_dirs),
        r.add_files == m.files && r.add_dirs == m.dirs,
        r.mod_files == 0 && r.mod_dirs == 0,
        r.uncollided_files == 0 && r.uncollided_dirs == 0,
        r.has_itemized_changes <==> exists|k: Seq<char>| #[trigger] m.preview.contains_key(k),
        r.planned_bytes == 0 && !r.planned_bytes_exact,
        r.total_regular_bytes is None,
        r.transfer_manifest is None,
        r.scan_complete <==> m.complete,
{
    if r.has_itemized_changes {
        if forall|k: Seq<char>| !(#[trigger] m.preview.contains_key(k)) {
            assert(m.preview.dom() =~= Set::<Seq<char>>::empty());
        }
    }
    if exists|k: Seq<char>| #[trigger] m.preview.contains_key(k) {
        let k = choose|k: Seq<char>| #[trigger] m.preview.contains_key(k);
        assert(m.preview.dom().contains(k));
    }
}

/// A quick scan starts with nothing found but the root, where that is brought along, and
/// shows it where it has a name.
pub proof fn law_a_quick_scan_starts_at_the_root(o: LiteOptions)
    ensures
        lite_start(o).files == 0,
        lite_start(o).dirs == 1 <==> o.include_root,
        lite_start(o).dirs == 0 <==> !o.include_root,
        lite_start(o).complete,
        !o.include_root || o.src_base@.len() == 0 ==> lite_start(o).preview == Map::<
            Seq<char>,
            ChangeKind,
        >::empty(),
{
}

} // verus!
