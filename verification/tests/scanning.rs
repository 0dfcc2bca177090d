use fsx_tools::batch::{
    batch_may_go_on, batch_operations, batch_rename_targets, batch_step, counterpart_matches,
    deletion_progress, flush_target, shown_name, BatchError, BatchItem, BatchNext, BatchPlan,
    BatchStep, RenameProbe,
};
use fsx_tools::changes::{bounded_preview_change, ChangeMap};
use fsx_tools::cleanup::{
    delete_step, prune_step, DeleteStep, Found, Identity, PruneStep, SourceFacts,
};
use fsx_tools::domain::{
    ChangeKind, DstObjKind, MergeCollisionPolicy, SrcObjKind, TransferMode,
};
use fsx_tools::names::{name_text, path_bytes, path_text};
use fsx_tools::paths::map_dir_dest_path;
use fsx_tools::policy::parse_merge_collision_policy;
use fsx_tools::prescan::{
    pre_scan_directory, scan_source_entries, DirScanOptions, ManifestDeleteEntry,
    ManifestFileEntry, PreScan,
};
use fsx_tools::prescan_lite::{
    destination_of_file, pre_scan_file, pre_scan_new_tree_lite, DestFileFacts, FileScanOptions,
    LiteOptions, SourceFileFacts,
};
use fsx_tools::rename::{without_moved, TopTallies};
use fsx_tools::scanner::{
    add_parent_dir_chain, build_destination_index, count_tree_any, destination_file_counts,
    DestinationKind, TreeCounts, WalkKind, WalkedEntry,
};
use fsx_tools::table::{Anchors, NameSet};
use fsx_tools::transfer::{
    file_target, first_entry_step, next_entry_step, shares_inode, walk_target, EntryDone,
    EntryFacts, EntryFailure, EntryKind, EntryOptions, EntryOrigin, EntryResult, EntryStep,
};

fn policy() -> MergeCollisionPolicy {
    parse_merge_collision_policy("source:always").unwrap()
}

fn walked(rel: &str, kind: WalkKind, size: u64) -> Option<WalkedEntry> {
    Some(WalkedEntry {
        rel: rel.to_string(),
        utf8: true,
        depth: rel.split('/').count(),
        kind,
        size,
        dev: 1,
        ino: rel.len() as u64 + 10 * size,
        nlink: 1,
        mtime: Some(5),
        restore_atime: 1,
        restore_mtime: 2,
        link_target: if kind == WalkKind::Symlink { Some("there".to_string()) } else { None },
    })
}

fn file_options() -> FileScanOptions {
    FileScanOptions {
        build_source_display_paths: false,
        collect_file_relation_breakdown: false,
        replace_dest_symlink: false,
        merge_collision_policy: policy(),
        same_directory: false,
        index_must_be_complete: false,
    }
}

#[test]
fn pre_scan_file_counts_uncollided_siblings_for_file_target() {
    let index = build_destination_index(vec![walked("other.json", WalkKind::File, 6)]);
    let mut src_rel_files = NameSet::new();
    src_rel_files.insert("personal2.json".to_string());
    let (_total, uncollided) = destination_file_counts(&index, &src_rel_files);
    assert_eq!(uncollided, 1);

    let ps = pre_scan_file(
        Some(SourceFileFacts { is_symlink: false, size: 6, mtime: Some(5), link_target: None }),
        "auth.json",
        "/tmp/dst/accounts/personal2.json",
        DstObjKind::File,
        None,
        Some(&index),
        file_options(),
    );
    assert_eq!(ps.uncollided_files, 1);
    assert_eq!(ps.planned_bytes, 6);
    assert_eq!(ps.add_files, 1);
}

#[test]
fn a_file_in_the_way_is_modified() {
    let ps = pre_scan_file(
        Some(SourceFileFacts { is_symlink: false, size: 6, mtime: Some(5), link_target: None }),
        "a",
        "/d",
        DstObjKind::Dir,
        Some(DestFileFacts { is_symlink: false, link_target: None, followed: Some((4, Some(1))) }),
        None,
        file_options(),
    );
    assert_eq!((ps.add_files, ps.mod_files), (0, 1));
    assert_eq!(destination_of_file("/d", DstObjKind::Dir, "a"), ("/d/a".to_string(), "a".to_string()));
}

fn scan_options() -> DirScanOptions {
    DirScanOptions {
        include_root: false,
        build_manifest: true,
        retain_identical_manifest: true,
        build_source_display_paths: true,
        collect_file_relation_breakdown: true,
        sync_mode: false,
        replace_dest_symlink: false,
        merge_collision_policy: policy(),
        bounded_preview_depth: None,
    }
}

fn source() -> Vec<Option<WalkedEntry>> {
    vec![
        walked("sub", WalkKind::Dir, 0),
        walked("sub/new", WalkKind::File, 7),
        walked("old", WalkKind::File, 3),
        walked("link", WalkKind::Symlink, 0),
    ]
}

fn plan(o: DirScanOptions, there: Vec<Option<WalkedEntry>>) -> PreScan {
    let scan = scan_source_entries(source(), None, true);
    assert!(scan.complete);
    pre_scan_directory("src", scan, Some(build_destination_index(there)), true, o)
}

#[test]
fn a_directory_is_planned_entry_by_entry() {
    let ps = plan(
        scan_options(),
        vec![walked("old", WalkKind::File, 9), walked("extra", WalkKind::File, 1)],
    );
    assert!(ps.scan_complete);
    assert_eq!(ps.planned_bytes, 10);
    assert_eq!(ps.total_regular_bytes, Some(10));
    assert_eq!(ps.mod_files, 1);
    assert_eq!(ps.uncollided_files, 1);
    assert_eq!(ps.add_dirs, 1);
    let items: Vec<(ChangeKind, &str)> =
        ps.change_preview.iter().map(|c| (c.kind, c.rel.as_str())).collect();
    assert!(items.contains(&(ChangeKind::ModFile, "old")));
    assert!(items.contains(&(ChangeKind::NewDir, "sub/")));
    let manifest = ps.transfer_manifest.unwrap();
    assert_eq!(manifest.copy_files.len(), 3);
    assert_eq!(manifest.dirs.len(), 1);
    assert!(manifest.sync_delete_files.is_empty());
}

#[test]
fn a_sync_deletes_what_the_source_lacks() {
    let o = DirScanOptions { sync_mode: true, ..scan_options() };
    let ps = plan(
        o,
        vec![
            walked("old", WalkKind::File, 3),
            walked("extra", WalkKind::File, 1),
            walked("gone", WalkKind::Dir, 0),
        ],
    );
    let manifest = ps.transfer_manifest.unwrap();
    assert_eq!(manifest.sync_delete_files.len(), 1);
    assert_eq!(manifest.sync_delete_files[0].rel, "extra");
    assert_eq!(manifest.sync_delete_dirs[0].rel, "gone");
    assert_eq!(manifest.identical_files.len(), 1);
    assert!(manifest.copy_files.iter().all(|f| f.rel != "old"));
}

#[test]
fn a_new_tree_needs_no_index() {
    let o = LiteOptions {
        include_root: false,
        src_base: "src",
        exclude_rel: None,
        build_source_display_paths: true,
        bounded_preview_depth: Some(1),
    };
    let ps = pre_scan_new_tree_lite(source(), o);
    assert!(ps.scan_complete);
    assert_eq!(ps.mod_files, 0);
    let deep: Vec<&str> = ps.change_preview.iter().map(|c| c.rel.as_str()).collect();
    assert!(deep.iter().all(|rel| !rel.trim_end_matches('/').contains('/')));
    let mut broken = source();
    broken.push(None);
    assert!(!pre_scan_new_tree_lite(broken, o).scan_complete);
}

#[test]
fn trees_and_indexes_are_counted() {
    let entries: Vec<WalkedEntry> = source().into_iter().flatten().collect();
    assert_eq!(
        count_tree_any(Some((WalkKind::Dir, 0)), &entries, true),
        TreeCounts { files: 2, bytes: 10, dirs: 2 }
    );
    assert_eq!(
        count_tree_any(Some((WalkKind::File, 8)), &[], true),
        TreeCounts { files: 1, bytes: 8, dirs: 0 }
    );
    let index = build_destination_index(source());
    assert!(index.is_complete());
    assert!(index.path_exists("sub/new"));
    assert!(!index.path_exists("sub/no"));
    assert_eq!(index.count_kind(DestinationKind::Regular), 2);
    assert_eq!(index.get("old").unwrap().size, 3);
    let mut dirs = NameSet::new();
    add_parent_dir_chain("a/b/c", false, &mut dirs);
    assert!(dirs.contains("a/b") && dirs.contains("a") && !dirs.contains("a/b/c"));
}

#[test]
fn names_and_anchors_are_found_again() {
    let mut names = NameSet::new();
    assert!(names.insert("a".to_string()));
    assert!(names.insert("b".to_string()));
    assert!(!names.insert("a".to_string()));
    assert_eq!(names.len(), 2);
    assert_eq!(names.name(1), "b");
    assert_eq!(names.into_names(), vec!["a", "b"]);
    let mut anchors = Anchors::new();
    assert_eq!(anchors.get((1, 2)), None);
    anchors.publish((1, 2), "/a".to_string());
    anchors.publish((1, 3), "/b".to_string());
    assert_eq!(anchors.get((1, 2)), Some("/a"));
    assert_eq!(anchors.get((1, 3)), Some("/b"));
    assert_eq!(anchors.get((2, 1)), None);
}

#[test]
fn previews_stay_within_their_depth() {
    assert_eq!(
        bounded_preview_change("a/b/c".to_string(), ChangeKind::NewFile, Some(1)),
        ("a/".to_string(), ChangeKind::NewDir)
    );
    let mut map = ChangeMap::new();
    map.set("b".to_string(), ChangeKind::NewFile);
    map.set("a".to_string(), ChangeKind::ModFile);
    assert!(map.has("a"));
    let rels: Vec<String> = map.into_items().into_iter().map(|c| c.rel).collect();
    assert_eq!(rels, vec!["b", "a"]);
}

fn entry_options() -> EntryOptions {
    EntryOptions {
        origin: EntryOrigin::Listed,
        sync: false,
        verify: true,
        replace_links: false,
        policy: policy(),
        compares_contents: false,
    }
}

fn entry_facts() -> EntryFacts {
    EntryFacts {
        kind: EntryKind::Regular,
        size: 9,
        mtime: Some(1),
        has_anchor: false,
        is_hardlinked: false,
        links_equal: false,
        dst_exists: false,
        dst_is_dir: false,
        dst_is_link: false,
        dst_is_regular: false,
        dst_size: None,
        dst_mtime: None,
    }
}

#[test]
fn an_entry_is_copied_and_verified() {
    let (o, f) = (entry_options(), entry_facts());
    let step = first_entry_step(o, f);
    assert!(matches!(step, EntryStep::Copy { .. }));
    let verify = next_entry_step(o, f, step, EntryResult::Succeeded);
    let done = EntryDone { counted: Some(9), is_anchor: false };
    assert_eq!(verify, EntryStep::Verify { done, hardlink: false });
    assert_eq!(next_entry_step(o, f, verify, EntryResult::Succeeded), EntryStep::Done { done });
    assert_eq!(
        next_entry_step(o, f, verify, EntryResult::Error),
        EntryStep::Failed { failure: EntryFailure::VerifyFile }
    );
    assert_eq!(
        next_entry_step(o, f, step, EntryResult::Error),
        EntryStep::Failed { failure: EntryFailure::CopyFile }
    );
    assert_eq!(
        first_entry_step(o, EntryFacts { has_anchor: true, is_hardlinked: true, ..f }),
        EntryStep::LinkToAnchor
    );
    assert_eq!(
        first_entry_step(o, EntryFacts { kind: EntryKind::Link, ..f }),
        EntryStep::CopyLink
    );
    assert_eq!(EntryFailure::CopyFile.operation(), "copy file");
}

#[test]
fn each_step_has_its_failure() {
    let (o, f) = (entry_options(), entry_facts());
    let failed = |failure| EntryStep::Failed { failure };
    let fails = |step| next_entry_step(o, f, step, EntryResult::Error);
    assert_eq!(
        first_entry_step(o, EntryFacts { dst_is_dir: true, dst_exists: true, ..f }),
        failed(EntryFailure::IsADirectory)
    );
    assert_eq!(fails(EntryStep::LinkToAnchor), failed(EntryFailure::CreateHardlink));
    assert_eq!(fails(EntryStep::CopyLink), failed(EntryFailure::CopySymlink));
    assert_eq!(fails(EntryStep::Compare), failed(EntryFailure::CompareContents));
    let verify = next_entry_step(o, f, EntryStep::LinkToAnchor, EntryResult::Succeeded);
    assert_eq!(fails(verify), failed(EntryFailure::VerifyHardlink));
    assert_eq!(EntryFailure::VerifyHardlink.operation(), "verify hardlink");
    assert!(EntryFailure::CreateHardlink.names_destination(EntryOrigin::Listed));
    assert!(EntryFailure::IsADirectory.names_destination(EntryOrigin::Single));
    assert!(!EntryFailure::IsADirectory.names_destination(EntryOrigin::Listed));
    assert!(!EntryFailure::CopyFile.is_reported(EntryOrigin::Walked));
    assert!(EntryFailure::VerifyFile.is_reported(EntryOrigin::Walked));
    assert!(EntryFailure::CopyFile.is_reported(EntryOrigin::Single));
    assert_eq!(EntryFailure::CompareContents.operation(), "compare file contents");
}

#[test]
fn targets_keep_the_shape_of_the_source() {
    assert_eq!(file_target("/s/a", "/d", true, false, false), Some("/d/a".to_string()));
    assert_eq!(file_target("/s/a", "/d", false, false, false), Some("/d".to_string()));
    assert_eq!(walk_target("/s/x/y", "/s", true, "/d", None), Some("/d/s/x/y".to_string()));
    assert_eq!(walk_target("/s/x/y", "/s", false, "/d", None), Some("/d/x/y".to_string()));
    assert_eq!(walk_target("/s/x/y", "/s", false, "/d", Some("x")), None);
}

fn batch_plan() -> PreScan {
    pre_scan_file(
        Some(SourceFileFacts { is_symlink: false, size: 6, mtime: Some(5), link_target: None }),
        "a",
        "/d",
        DstObjKind::DirExisting,
        None,
        None,
        file_options(),
    )
}

#[test]
fn batches_hold_distinct_files() {
    let mut batch = BatchPlan::new();
    assert_eq!(batch.refuse("/s/a", SrcObjKind::Dir, "/s", "/d"), Some(BatchError::NotAFile));
    assert_eq!(batch.refuse("/d/a", SrcObjKind::File, "/d", "/d"), Some(BatchError::SameDirectory));
    assert_eq!(batch.refuse("/s/a", SrcObjKind::File, "/s", "/d"), None);
    batch.join("/s/a".to_string(), batch_plan());
    assert_eq!(batch.refuse("/t/a", SrcObjKind::File, "/t", "/d"), Some(BatchError::NameTaken));
    assert_eq!(batch.planned_bytes, 6);
    let (one, other) = (path_text(b"/s/x\xff"), path_text(b"/t/x\xfe"));
    assert_eq!(shown_name(&one), "x\u{fffd}");
    assert_eq!(shown_name("/"), "source");
    let mut alike = BatchPlan::new();
    alike.join(one, batch_plan());
    assert_eq!(alike.refuse(&other, SrcObjKind::File, "/t", "/d"), Some(BatchError::NameTaken));
    assert_eq!(alike.refuse("/t/x", SrcObjKind::File, "/t", "/d"), None);
    assert_eq!(batch.add_files, 1);
    assert_eq!(batch.file_row(true, 2).uncollided, 2);
    assert_eq!(batch.next(true, TransferMode::Copy), BatchNext::Stop);
    assert_eq!(batch.next(false, TransferMode::Copy), BatchNext::Ask { cleanup_only: false });
    assert_eq!(BatchPlan::new().next(false, TransferMode::Copy), BatchNext::NothingToDo);
    assert_eq!(
        BatchPlan::new().next(false, TransferMode::Move),
        BatchNext::Ask { cleanup_only: true }
    );
}

#[test]
fn batches_are_renamed_whole_or_copied() {
    let item = |path: &str| BatchItem {
        path: path.to_string(),
        planned_bytes: 1,
        needs_copy: true,
    };
    let items = vec![item("/s/a"), item("/s/b")];
    let free = RenameProbe { same_filesystem: true, exists: false };
    let taken = RenameProbe { same_filesystem: true, exists: true };
    assert_eq!(
        batch_rename_targets(&items, "/d", &vec![free, free]),
        Some(vec!["/d/a".to_string(), "/d/b".to_string()])
    );
    assert_eq!(batch_rename_targets(&items, "/d", &vec![free, taken]), None);
    assert_eq!(
        batch_operations(&vec![true, false, true, true], &vec![Some(1), Some(2), None, Some(4)]),
        (vec![Some(0), None, None, Some(1)], vec![1, 4])
    );
    assert_eq!(batch_step(false, false, false, false), BatchStep::Skip);
    assert_eq!(batch_step(true, true, false, false), BatchStep::CopyLink);
    assert_eq!(batch_step(true, false, true, true), BatchStep::Copy { remove_target: true });
    assert!(batch_may_go_on(""));
    assert!(!batch_may_go_on("n"));
    assert!(counterpart_matches(false, false, Some(3), Some(3)));
    assert!(!counterpart_matches(false, false, Some(3), None));
    assert_eq!(flush_target("/a/b", false), "/a");
    assert_eq!(flush_target("/a/b", true), "/a/b");
    assert_eq!(deletion_progress(3, 5, false), (3, 5));
}

#[test]
fn only_planned_files_are_removed() {
    let entry = |rel: &str| ManifestFileEntry {
        rel: rel.to_string(),
        size: 4,
        dev: 1,
        ino: 2,
        nlink: 1,
        is_symlink: false,
        mtime: Some(9),
    };
    let facts = SourceFacts { dev: 1, ino: 2, size: 4, mtime: Some(9) };
    assert_eq!(prune_step(&entry("a"), Some(facts), true), PruneStep::Remove);
    assert_eq!(prune_step(&entry("a"), Some(facts), false), PruneStep::Keep);
    let touched = SourceFacts { mtime: Some(10), ..facts };
    assert_ne!(prune_step(&entry("a"), Some(touched), true), PruneStep::Remove);
    assert!(!shares_inode(&entry("a")));
    let delete = ManifestDeleteEntry {
        rel: "a".to_string(),
        size: 4,
        dev: 1,
        ino: 2,
        mtime: Some(9),
        is_symlink: false,
        link_target: None,
    };
    let identity = Identity { dev: 1, ino: 2, size: 4, mtime: Some(9) };
    let found = Found::File { identity };
    assert_eq!(delete_step(&delete, &found), DeleteStep::Remove);
    assert_eq!(delete_step(&delete, &Found::Missing), DeleteStep::Gone);
    let grown = Found::File { identity: Identity { size: 5, ..identity } };
    assert_eq!(delete_step(&delete, &grown), DeleteStep::Changed);
    let dir = Found::Directory { dev: 1, ino: 2 };
    assert_eq!(delete_step(&delete, &dir), DeleteStep::ChangedType);
    assert_eq!(delete_step(&delete, &Found::Unreadable), DeleteStep::Fail);
    let link = Found::Link { identity, target: Some("there".to_string()) };
    assert_eq!(delete_step(&delete, &link), DeleteStep::Remove);
    let planned_link = ManifestDeleteEntry {
        is_symlink: true,
        link_target: Some("there".to_string()),
        ..delete
    };
    assert_eq!(delete_step(&planned_link, &link), DeleteStep::Remove);
    let other = Found::Link { identity, target: Some("elsewhere".to_string()) };
    assert_eq!(delete_step(&planned_link, &other), DeleteStep::Changed);
    assert_eq!(delete_step(&planned_link, &found), DeleteStep::Changed);
}

#[test]
fn moved_children_leave_the_manifest() {
    let manifest = plan(scan_options(), vec![]).transfer_manifest.unwrap();
    let tallies = TopTallies::from_manifest(&manifest);
    assert_eq!(tallies.get("sub").files, 1);
    assert_eq!(tallies.get("sub").copy_bytes, 7);
    assert_eq!(tallies.get("none").files, 0);
    let mut moved = NameSet::new();
    moved.insert("sub".to_string());
    let left = without_moved(manifest, &moved);
    assert!(left.copy_files.iter().all(|f| !f.rel.starts_with("sub/")));
    assert!(left.copy_files.iter().any(|f| f.rel == "old"));
    assert!(left.dirs.is_empty());
}

#[test]
fn a_quick_scan_counts_alike() {
    let options = LiteOptions {
        include_root: true,
        src_base: "src",
        exclude_rel: None,
        build_source_display_paths: false,
        bounded_preview_depth: None,
    };
    let quick = pre_scan_new_tree_lite(source(), options);
    let o = DirScanOptions { include_root: true, ..scan_options() };
    let scan = scan_source_entries(source(), None, true);
    let full = pre_scan_directory("src", scan, None, false, o);
    assert!(quick.scan_complete && full.scan_complete);
    assert_eq!(quick.total_regular_files, full.total_regular_files);
    assert_eq!(quick.total_dirs, full.total_dirs);
    assert_eq!(quick.add_files, full.add_files);
    assert_eq!(quick.add_dirs, full.add_dirs);
}

#[test]
fn a_manifest_passes_over_nothing() {
    let o = DirScanOptions {
        build_manifest: true,
        retain_identical_manifest: true,
        sync_mode: true,
        ..scan_options()
    };
    let there = vec![walked("old", WalkKind::File, 3), walked("extra", WalkKind::File, 1)];
    let ps = plan(o, there);
    assert!(ps.has_planned_changes());
    let m = ps.transfer_manifest.unwrap();
    let copied: Vec<&str> = m.copy_files.iter().map(|e| e.rel.as_str()).collect();
    let kept: Vec<&str> = m.identical_files.iter().map(|e| e.rel.as_str()).collect();
    let gone: Vec<&str> = m.sync_delete_files.iter().map(|e| e.rel.as_str()).collect();
    assert_eq!(copied, ["link", "sub/new"]);
    assert_eq!(kept, ["old"]);
    assert_eq!(gone, ["extra"]);
}

#[test]
fn non_utf8_file_root_keeps_exact_basename_in_preview_and_transfer() {
    let source = path_text(b"/source-parent/file-\xff");
    let name = name_text(b"file-\xff");
    let facts = SourceFileFacts { is_symlink: false, size: 7, mtime: Some(5), link_target: None };
    let options = FileScanOptions {
        build_source_display_paths: true,
        collect_file_relation_breakdown: true,
        merge_collision_policy: MergeCollisionPolicy::default(),
        ..file_options()
    };
    let scan =
        pre_scan_file(Some(facts), &name, "/destination", DstObjKind::DirExisting, None, None, options);
    assert!(scan.scan_complete);
    assert_eq!(scan.change_preview.len(), 1);
    assert_eq!(scan.change_preview[0].rel, "file-%FF");
    let target = file_target(&source, "/destination", true, false, false).expect("target");
    assert_eq!(path_bytes(&target), b"/destination/file-\xff");
}

#[test]
fn non_utf8_directory_root_keeps_exact_basename_in_preview_and_transfer() {
    let base = name_text(b"dir-\xff");
    let walk = vec![walked("", WalkKind::Dir, 0), walked("payload", WalkKind::File, 17)];
    let options = DirScanOptions {
        include_root: true,
        merge_collision_policy: MergeCollisionPolicy::default(),
        ..scan_options()
    };
    let scan = pre_scan_directory(&base, scan_source_entries(walk, None, true), None, false, options);
    assert!(scan.scan_complete);
    assert!(scan.change_preview.iter().any(|entry| entry.rel == "dir-%FF/"));
    let manifest = scan.transfer_manifest.expect("transfer manifest");
    assert_eq!(manifest.copy_files.len(), 1);
    let target = map_dir_dest_path(true, &base, &manifest.copy_files[0].rel, "/destination");
    assert_eq!(path_bytes(&target), b"/destination/dir-\xff/payload");
}

#[test]
fn non_manifest_transfer_keeps_exact_non_utf8_descendant_paths() {
    let path = path_text(b"/source/child-\xff/payload");
    let target = walk_target(&path, "/source", true, "/destination", None).expect("target");
    assert_eq!(path_bytes(&target), b"/destination/source/child-\xff/payload");
}

#[test]
fn times_are_restored_from_the_leaves_to_the_root() {
    let walk = vec![
        walked("", WalkKind::Dir, 0),
        walked("a", WalkKind::Dir, 0),
        walked("b", WalkKind::Dir, 0),
        walked("a/c", WalkKind::Dir, 0),
    ];
    let scan = scan_source_entries(walk, None, true);
    let plan = pre_scan_directory("src", scan, None, false, scan_options());
    let times = plan.transfer_manifest.expect("manifest").dir_times;
    let order: Vec<&str> = times.iter().map(|entry| entry.rel.as_str()).collect();
    assert_eq!(order, ["a/c", "a", "b", ""]);
}

#[test]
fn contents_are_compared_where_sizes_alone_decide() {
    assert!(MergeCollisionPolicy::default().requires_content_identity_check());
    assert!(!policy().requires_content_identity_check());
}
