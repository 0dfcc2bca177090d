use fsx_tools::batch::{collects_telemetry, lacks_directory, BatchError};
use fsx_tools::cleanup::{
    count_deleted, delete_dir_step, directory_removals, prune_candidates, source_unchanged,
    sync_delete_bytes, DeleteStep, Found, SourceFacts,
};
use fsx_tools::domain::{
    DeleteCleanupOutcome, DstObjKind, Endpoint, RemoteSpec, SrcObjKind, TransferBackend,
    TransferMode,
};
use fsx_tools::execution::{
    add_deleted, explain_ending, likely_cleanup, manifest_cleanup, plan_execution, take_off,
    CleanupTotals, Ending, ExecutionPlan, PlanFacts, Remaining,
};
use fsx_tools::placement::{
    backup_source, fast_rename_target, place, sync_root, transfer_path_arg, typed_as_directory,
    with_slash, Existing, LocalEnds, LocalOptions, ModeFlags, ObjectKind,
};
use fsx_tools::prescan::{
    ManifestDeleteDirEntry, ManifestDeleteEntry, ManifestDir, ManifestDirTimeEntry,
    ManifestFileEntry, TransferManifest,
};
use fsx_tools::remote::endpoint_to_rsync;
use fsx_tools::rename::PreMergeFastRenameStats;
use fsx_tools::resolve::{
    available_bytes, can_fast_rename_same_fs, part_to_resolve, resolve_destination_for_dir,
    resolve_destination_for_file, resolve_source, PathKind, ResolveError, ResolvedPart,
};
use fsx_tools::transfer::{
    dir_operation, file_operation, planned_regular_source_paths, times_operation, transfer_status,
};

#[test]
fn a_source_is_a_file_or_a_directory() {
    assert_eq!(resolve_source(PathKind::Link), Ok(SrcObjKind::File));
    assert_eq!(resolve_source(PathKind::File), Ok(SrcObjKind::File));
    assert_eq!(resolve_source(PathKind::Directory), Ok(SrcObjKind::Dir));
    assert_eq!(resolve_source(PathKind::Missing), Err(ResolveError::SourceMissing));
    assert_eq!(
        resolve_source(PathKind::Other),
        Err(ResolveError::SourceNeitherFileNorDirectory)
    );
}

#[test]
fn destinations_are_told_by_what_is_there() {
    let file = resolve_destination_for_file;
    assert_eq!(file(PathKind::Missing, false, true, false), Ok(DstObjKind::File));
    assert_eq!(
        file(PathKind::Missing, false, false, false),
        Err(ResolveError::DestinationParentMissing)
    );
    assert_eq!(file(PathKind::Link, true, true, false), Ok(DstObjKind::Dir));
    assert_eq!(file(PathKind::Link, true, true, true), Ok(DstObjKind::File));
    assert_eq!(file(PathKind::Directory, true, true, true), Ok(DstObjKind::Dir));
    let dir = resolve_destination_for_dir;
    assert_eq!(dir(true, true, true, false), Ok(DstObjKind::DirExisting));
    assert_eq!(dir(true, false, true, true), Ok(DstObjKind::FileExistingForDir));
    assert_eq!(
        dir(true, false, true, false),
        Err(ResolveError::DestinationMustBeDirectory)
    );
    assert_eq!(dir(false, false, true, false), Ok(DstObjKind::DirNew));
    assert_eq!(
        dir(false, false, false, false),
        Err(ResolveError::DestinationParentMissing)
    );
}

#[test]
fn refusals_name_the_path() {
    assert_eq!(
        ResolveError::SourceMissing.message("/a/b", "/a"),
        "Source path does not exist: /a/b"
    );
    assert_eq!(
        ResolveError::SourceNeitherFileNorDirectory.message("/a/b", "/a"),
        "Source path must be a file or directory: /a/b"
    );
    assert_eq!(
        ResolveError::DestinationParentMissing.message("/a/b", "/a"),
        "Destination parent directory does not exist: /a"
    );
    assert_eq!(
        ResolveError::DestinationMustBeDirectory.message("/a/b", "/a"),
        "Destination path must be a directory (or a new directory path): /a/b"
    );
    assert_eq!(
        BatchError::NameTaken.message("a"),
        "Multiple source paths resolve to the same destination name: a"
    );
    assert_eq!(
        BatchError::NotAFile.message("a"),
        "Multiple source path support currently only handles files."
    );
    assert_eq!(
        BatchError::SameDirectory.message("a"),
        "Multiple source file glob mode requires a different destination directory."
    );
}

#[test]
fn only_a_known_device_allows_a_rename() {
    assert!(can_fast_rename_same_fs(Some(1), Some(1)));
    assert!(!can_fast_rename_same_fs(Some(1), Some(2)));
    assert!(!can_fast_rename_same_fs(None, None));
    assert_eq!(available_bytes(3, 4096), 12288);
    assert_eq!(available_bytes(u64::MAX, 2), u64::MAX);
}

#[test]
fn endpoints_become_arguments() {
    let local = Endpoint::Local("/a".to_string());
    assert_eq!(endpoint_to_rsync(&local, true, true, Some(SrcObjKind::Dir), true), "/a/");
    assert_eq!(endpoint_to_rsync(&local, true, true, Some(SrcObjKind::File), false), "/a");
    assert_eq!(endpoint_to_rsync(&local, false, false, None, true), "/a/");
    let remote = Endpoint::Remote(RemoteSpec {
        user: Some("me".to_string()),
        host: "host".to_string(),
        path: "/b".to_string(),
    });
    assert_eq!(endpoint_to_rsync(&remote, true, true, None, false), "me@host:/b/");
    assert_eq!(endpoint_to_rsync(&remote, false, true, None, false), "me@host:/b");
}

fn options() -> LocalOptions {
    LocalOptions {
        overwrite: false,
        force: false,
        sync: false,
        backup: false,
        contents_requested: false,
        glob_contents: false,
    }
}

fn ends(kind: SrcObjKind, destination: &str, destination_kind: DstObjKind) -> LocalEnds {
    LocalEnds {
        source: "/data/src".to_string(),
        source_kind: kind,
        source_real: "/data/src".to_string(),
        source_parent_real: "/data".to_string(),
        destination: destination.to_string(),
        destination_kind,
        destination_display: destination.to_string(),
        destination_real: destination.to_string(),
        slot_real: format!("{}/src", destination),
    }
}

#[test]
fn a_plain_move_is_a_rename() {
    let e = ends(SrcObjKind::Dir, "/out", DstObjKind::Dir);
    let p = place(options(), &e).unwrap();
    let target = |mode, sudo| fast_rename_target(&p, options(), &e, mode, sudo, false, false);
    assert_eq!(target(TransferMode::Move, false), Some("/out/src".to_string()));
    assert_eq!(target(TransferMode::Copy, false), None);
    assert_eq!(target(TransferMode::Move, true), None);
    let e = ends(SrcObjKind::Dir, "/out/new", DstObjKind::DirNew);
    let p = place(options(), &e).unwrap();
    assert_eq!(
        fast_rename_target(&p, options(), &e, TransferMode::Move, false, false, false),
        Some("/out/new".to_string())
    );
}

#[test]
fn what_is_overwritten_is_backed_up() {
    let q = LocalOptions { backup: true, overwrite: true, ..options() };
    let e = ends(SrcObjKind::File, "/out", DstObjKind::Dir);
    let p = place(q, &e).unwrap();
    let target =
        Some(Existing { path: "/out/src".to_string(), kind: ObjectKind::File });
    let flags = ModeFlags { merge: false, overwrite: true };
    let saved = backup_source(&p, q, &e, &target, flags, &None, &None).unwrap();
    assert_eq!(saved.path, "/out/src");
    assert_eq!(saved.kind, ObjectKind::File);
    assert!(backup_source(&p, options(), &e, &target, flags, &None, &None).is_none());
}

#[test]
fn paths_become_arguments() {
    assert_eq!(transfer_path_arg("/a", true), "/a/");
    assert_eq!(transfer_path_arg("/a", false), "/a");
    assert_eq!(transfer_path_arg("", true), "");
    assert_eq!(with_slash("/a//", true), "/a/");
    assert_eq!(with_slash("/a//", false), "/a");
    assert!(typed_as_directory("out/"));
    assert!(!typed_as_directory("out"));
    let e = ends(SrcObjKind::Dir, "/out", DstObjKind::Dir);
    let p = place(options(), &e).unwrap();
    assert_eq!(sync_root(&p, options(), &e), "/out/src");
}

fn facts() -> PlanFacts {
    PlanFacts {
        is_move: false,
        sudo: false,
        backup: false,
        sync: false,
        target: None,
        backs_up: false,
        overwrite_needed: false,
        cleanup_only: false,
        source_has_name: true,
        has_manifest: true,
        has_deletions: false,
    }
}

#[test]
fn a_directory_that_replaces_one_is_staged() {
    let e = ends(SrcObjKind::Dir, "/out", DstObjKind::Dir);
    let p = place(options(), &e).unwrap();
    let plain = ExecutionPlan {
        is_move: false,
        backup: false,
        backs_up_first: false,
        overwrites: false,
        staged: false,
        premerges: false,
        cleanup_only: false,
        source_is_dir: true,
        source_has_name: true,
        has_manifest: true,
        sync_deletes: false,
    };
    assert_eq!(plan_execution(&p, &e, facts()), plain);
    let replacing = PlanFacts { target: Some(ObjectKind::Dir), backs_up: true, ..facts() };
    assert_eq!(
        plan_execution(&p, &e, replacing),
        ExecutionPlan { overwrites: true, staged: true, ..plain }
    );
    let over_file = PlanFacts { target: Some(ObjectKind::File), ..facts() };
    assert!(!plan_execution(&p, &e, over_file).staged);
    let backed_up = PlanFacts { backs_up: true, ..facts() };
    assert!(plan_execution(&p, &e, backed_up).backs_up_first);
    let syncing = PlanFacts { sync: true, has_deletions: true, ..facts() };
    assert!(plan_execution(&p, &e, syncing).sync_deletes);
    assert!(!plan_execution(&p, &e, PlanFacts { sudo: true, ..syncing }).sync_deletes);
}

#[test]
fn a_move_of_contents_renames_children_first() {
    let q = LocalOptions { contents_requested: true, ..options() };
    let e = ends(SrcObjKind::Dir, "/out", DstObjKind::DirExisting);
    let p = place(q, &e).unwrap();
    assert!(p.contents_mode);
    let moving = PlanFacts { is_move: true, ..facts() };
    assert!(plan_execution(&p, &e, moving).premerges);
    assert!(!plan_execution(&p, &e, PlanFacts { backup: true, ..moving }).premerges);
    assert!(!plan_execution(&p, &e, facts()).premerges);
}

#[test]
fn endings_are_explained() {
    let copy = TransferMode::Copy;
    assert!(explain_ending(Ending::Done, copy, 0).is_empty());
    assert!(explain_ending(Ending::CleanupFailed, copy, 0).is_empty());
    assert_eq!(
        explain_ending(Ending::TransferFailed, TransferMode::Move, -9),
        ["Move failed: transfer exited with status -9."]
    );
    assert_eq!(
        explain_ending(Ending::StageTransferFailed, copy, 23),
        ["Copy failed: rsync exited with status 23."]
    );
    assert_eq!(
        explain_ending(Ending::SourceVanished, copy, 24),
        [
            "Copy failed: some source files vanished during transfer (rsync exit 24).",
            "Re-run copy to converge once the source tree is stable.",
        ]
    );
    assert_eq!(
        explain_ending(Ending::NoStage, copy, 0),
        ["Failed to create staging directory."]
    );
    assert_eq!(
        explain_ending(Ending::NoRollbackPath, copy, 0),
        ["Failed to reserve an overwrite rollback path."]
    );
    assert_eq!(
        explain_ending(Ending::TargetStayed, copy, 0),
        ["Failed to reserve the existing destination for rollback."]
    );
    assert_eq!(
        explain_ending(Ending::PublishFailed, copy, 0),
        ["Failed to place staged directory into destination."]
    );
    assert_eq!(
        explain_ending(Ending::OldTargetRemains, copy, 0),
        ["Replacement succeeded but old destination cleanup failed."]
    );
    assert_eq!(
        explain_ending(Ending::FlushFailed, copy, 0),
        ["Transfer completed but destination flush failed; refusing source cleanup."]
    );
    assert_eq!(
        explain_ending(Ending::SourceRetained, TransferMode::Move, 0),
        ["Move cleanup did not verify every source entry; source was retained."]
    );
    assert_eq!(
        explain_ending(Ending::NoSourceName, copy, 0),
        ["Failed to resolve the source directory basename."]
    );
}

fn file(rel: &str, size: u64, is_symlink: bool) -> ManifestFileEntry {
    ManifestFileEntry {
        rel: rel.to_string(),
        size,
        dev: 1,
        ino: 2,
        nlink: 1,
        is_symlink,
        mtime: Some(5),
    }
}

fn manifest() -> TransferManifest {
    TransferManifest {
        dirs: vec![
            ManifestDir { rel: "d".to_string() },
            ManifestDir { rel: "d/e".to_string() },
        ],
        dir_times: vec![ManifestDirTimeEntry { rel: "d".to_string(), atime: 1, mtime: 2 }],
        copy_files: vec![file("a", 10, false), file("d/l", 3, true)],
        identical_files: vec![file("same", 7, false)],
        sync_delete_files: Vec::new(),
        sync_delete_dirs: Vec::new(),
    }
}

#[test]
fn a_move_cleans_up_what_it_listed() {
    let m = manifest();
    assert_eq!(manifest_cleanup(&m), CleanupTotals { files: 3, bytes: 20 });
    assert_eq!(likely_cleanup(true, 3, Some(9)), 3);
    assert_eq!(likely_cleanup(true, 0, Some(9)), 9);
    assert_eq!(likely_cleanup(false, 3, Some(9)), 0);
    assert_eq!(directory_removals(&m, "/s", true, None), ["/s/d/e", "/s/d", "/s"]);
    assert_eq!(directory_removals(&m, "/s", false, Some("d/e")), ["/s/d"]);
    let found = prune_candidates(&m.copy_files, "/s", "/t/", false, Some("d"));
    assert_eq!(found.len(), 1);
    assert_eq!(found[0].source, "/s/a");
    assert_eq!(found[0].destination, "/t/s/a");
    assert_eq!(found[0].size, 10);
    assert!(prune_candidates(&m.copy_files, "/s/", "/s", false, None).is_empty());
    assert_eq!(planned_regular_source_paths("/s", &m), ["/s/a"]);
}

#[test]
fn a_changed_source_stays() {
    let same = SourceFacts { dev: 1, ino: 2, size: 10, mtime: Some(5) };
    assert!(source_unchanged(&file("a", 10, false), same));
    assert!(!source_unchanged(&file("a", 10, false), SourceFacts { size: 11, ..same }));
    assert!(!source_unchanged(&file("a", 10, false), SourceFacts { mtime: None, ..same }));
    assert!(source_unchanged(&file("a", 3, true), SourceFacts { mtime: None, ..same }));
    assert!(!source_unchanged(&file("a", 3, true), SourceFacts { ino: 9, ..same }));
}

#[test]
fn operations_have_their_places() {
    let m = manifest();
    assert_eq!(dir_operation(true, 0), 1);
    assert_eq!(dir_operation(false, 1), 1);
    assert_eq!(file_operation(&m, true, 0), 3);
    assert_eq!(file_operation(&m, false, 1), 3);
    assert_eq!(times_operation(&m, true, 0), 5);
    assert_eq!(transfer_status(true, 0), 130);
    assert_eq!(transfer_status(false, 3), 3);
}

fn extra(size: u64) -> ManifestDeleteEntry {
    ManifestDeleteEntry {
        rel: "x".to_string(),
        size,
        dev: 1,
        ino: 2,
        mtime: None,
        is_symlink: false,
        link_target: None,
    }
}

#[test]
fn deletions_are_summed_up() {
    assert_eq!(sync_delete_bytes(&vec![extra(3), extra(4)]), Some(7));
    assert_eq!(sync_delete_bytes(&vec![extra(u64::MAX), extra(1)]), None);
    let mut total = DeleteCleanupOutcome { files: 1, bytes: 5, success: true };
    count_deleted(&mut total, 4);
    assert_eq!((total.files, total.bytes, total.success), (2, 9, true));
    add_deleted(&mut total, DeleteCleanupOutcome { files: 3, bytes: 1, success: false });
    assert_eq!((total.files, total.bytes), (5, 10));
}

#[test]
fn only_the_planned_directory_goes() {
    let e = ManifestDeleteDirEntry { rel: "d".to_string(), dev: 1, ino: 2 };
    assert_eq!(delete_dir_step(&e, &Found::Directory { dev: 1, ino: 2 }), DeleteStep::Remove);
    assert_eq!(delete_dir_step(&e, &Found::Directory { dev: 1, ino: 3 }), DeleteStep::Changed);
    assert_eq!(delete_dir_step(&e, &Found::Missing), DeleteStep::Gone);
    assert_eq!(delete_dir_step(&e, &Found::Unreachable), DeleteStep::Gone);
    assert_eq!(delete_dir_step(&e, &Found::Unreadable), DeleteStep::Fail);
}

#[test]
fn renamed_children_are_taken_off() {
    let left = Remaining {
        planned_bytes: 100,
        cleanup: CleanupTotals { files: 4, bytes: 60 },
    };
    let mut stats = PreMergeFastRenameStats::none();
    assert_eq!(take_off(left, stats), left);
    stats.moved_entries = 1;
    stats.moved_files = 1;
    stats.moved_bytes = 40;
    stats.removed_copy_bytes = 30;
    assert_eq!(
        take_off(left, stats),
        Remaining { planned_bytes: 70, cleanup: CleanupTotals { files: 3, bytes: 20 } }
    );
}

#[test]
fn the_backend_follows_the_rights() {
    let own = TransferBackend::for_rights(false);
    let elevated = TransferBackend::for_rights(true);
    assert_eq!((own.word(), elevated.word()), ("rust", "rsync"));
    assert!(own.needs_manifest(false, TransferMode::Copy));
    assert!(!own.needs_manifest(true, TransferMode::Copy));
    assert!(!elevated.needs_manifest(false, TransferMode::Copy));
    assert!(elevated.needs_manifest(false, TransferMode::Move));
    assert_eq!(TransferMode::Move.word_cap(), "Move");
}

#[test]
fn a_large_batch_is_watched() {
    assert!(collects_telemetry(8 * 1024 * 1024, 1));
    assert!(collects_telemetry(0, 256));
    assert!(!collects_telemetry(8 * 1024 * 1024 - 1, 255));
    assert!(lacks_directory(DstObjKind::File));
    assert!(lacks_directory(DstObjKind::DirNew));
    assert!(!lacks_directory(DstObjKind::DirExisting));
}

#[test]
fn a_link_at_the_end_of_a_path_is_kept() {
    assert_eq!(part_to_resolve(PathKind::Link), ResolvedPart::Parent);
    assert_eq!(part_to_resolve(PathKind::Missing), ResolvedPart::Existing);
    for kind in [PathKind::Directory, PathKind::File, PathKind::Other] {
        assert_eq!(part_to_resolve(kind), ResolvedPart::Whole);
    }
}
