use fsx_tools::app::{run, CliArgs, Route, RunError};
use fsx_tools::domain::{
    ChangeKind, CollisionCombineMode, CollisionPredicates, CollisionWinner, DstObjKind,
    FileRelationBreakdown, MergeCollisionPolicy, SrcObjKind, TransferMode,
};
use fsx_tools::execution::{
    after_preview, exit_code, fill_row, first_step, lacks_space, next_step, read_answer, weigh,
    AfterPreview, Answer, CleanupTotals, CountRow, Ending, ExecutionPlan, PlanCounts, Step,
    StepResult, WorkFacts,
};
use fsx_tools::placement::{
    mode_flags, overwrite_target, place, preview_root, renaming, LocalEnds, LocalOptions,
    ModeFlags, ObjectKind, PlacementError, Renaming,
};
use fsx_tools::policy::{
    classify_file_relation, parse_merge_collision_policy, regular_file_collision_change,
    sync_regular_file_change,
};

fn policy(raw: &str) -> MergeCollisionPolicy {
    parse_merge_collision_policy(raw).unwrap()
}

#[test]
fn collision_policies_are_read() {
    let p = policy("source:newer,larger");
    assert_eq!(p.winner, CollisionWinner::Source);
    assert_eq!(p.combine, CollisionCombineMode::Any);
    assert_eq!(
        p.predicates,
        CollisionPredicates { always: false, newer: true, larger: true, size_differs: false }
    );
    assert!(parse_merge_collision_policy("nonsense").is_err());
}

#[test]
fn collisions_follow_the_policy() {
    let newer = policy("source:newer");
    let change = |src_mtime, dst_mtime| {
        regular_file_collision_change(newer, 5, src_mtime, true, Some(5), dst_mtime)
    };
    assert_eq!(change(Some(2), Some(1)), Some(ChangeKind::ModFile));
    assert_eq!(change(Some(1), Some(2)), None);
    assert_eq!(
        regular_file_collision_change(newer, 5, None, false, None, None),
        Some(ChangeKind::NewFile)
    );
    assert_eq!(
        sync_regular_file_change(5, Some(1), true, Some(6), Some(1)),
        Some(ChangeKind::ModFile)
    );
    assert_eq!(sync_regular_file_change(5, Some(1), true, Some(5), Some(1)), None);
    assert_eq!(
        sync_regular_file_change(5, Some(1), false, None, None),
        Some(ChangeKind::ModFile)
    );
}

#[test]
fn relations_are_counted_once() {
    let none = FileRelationBreakdown {
        same_time_same_size: 0,
        same_time_source_larger: 0,
        same_time_source_smaller: 0,
        same_size_source_newer: 0,
        same_size_source_older: 0,
        source_older_smaller: 0,
        source_older_larger: 0,
        source_newer_smaller: 0,
        source_newer_larger: 0,
    };
    assert_eq!(
        classify_file_relation(5, Some(9), Some(4), Some(1)),
        Some(FileRelationBreakdown { source_newer_larger: 1, ..none })
    );
    assert_eq!(
        classify_file_relation(5, Some(1), Some(5), Some(1)),
        Some(FileRelationBreakdown { same_time_same_size: 1, ..none })
    );
    assert_eq!(classify_file_relation(5, None, Some(5), Some(1)), None);
}

fn options() -> LocalOptions {
    LocalOptions {
        overwrite: false,
        force: false,
        sync: false,
        backup: false,
        contents_requested: false,
        glob_contents: false,
    }
}

fn ends(kind: SrcObjKind, destination: &str, destination_kind: DstObjKind) -> LocalEnds {
    LocalEnds {
        source: "/data/src".to_string(),
        source_kind: kind,
        source_real: "/data/src".to_string(),
        source_parent_real: "/data".to_string(),
        destination: destination.to_string(),
        destination_kind,
        destination_display: destination.to_string(),
        destination_real: destination.to_string(),
        slot_real: format!("{}/src", destination),
    }
}

#[test]
fn a_directory_goes_below_its_destination() {
    let e = ends(SrcObjKind::Dir, "/out", DstObjKind::Dir);
    let p = place(options(), &e).unwrap();
    assert!(!p.contents_mode);
    assert!(p.include_source_root);
    assert!(!p.already_there);
    assert_eq!(p.destination_path, "/out/");
    assert_eq!(p.source_argument, "/data/src");
    assert_eq!(p.destination_argument, "/out/");
    assert!(matches!(renaming(&p, options(), &e), Renaming::Same));
    assert_eq!(preview_root(&p, options(), &e, &Renaming::Same), "/out/");
    assert_eq!(
        mode_flags(&p, options(), &e, false, true),
        ModeFlags { merge: true, overwrite: false }
    );
}

#[test]
fn a_new_name_renames() {
    let e = ends(SrcObjKind::Dir, "/out/new", DstObjKind::DirNew);
    let p = place(options(), &e).unwrap();
    assert!(p.renames_directory);
    match renaming(&p, options(), &e) {
        Renaming::Target { name, is_dir } => {
            assert_eq!(name, "new");
            assert!(is_dir);
        }
        other => panic!("{:?}", other),
    }
    let sibling = ends(SrcObjKind::Dir, "/data/new", DstObjKind::DirNew);
    let p = place(options(), &sibling).unwrap();
    match renaming(&p, options(), &sibling) {
        Renaming::Simple { from, to, parent } => {
            assert_eq!((from.as_str(), to.as_str()), ("src", "new"));
            assert_eq!(parent, "/data");
        }
        other => panic!("{:?}", other),
    }
}

#[test]
fn the_source_is_never_overwritten() {
    let sync = LocalOptions { sync: true, ..options() };
    let file = ends(SrcObjKind::File, "/out", DstObjKind::Dir);
    assert_eq!(place(sync, &file).unwrap_err(), PlacementError::SyncNeedsDirectory);
    let above = LocalEnds {
        source: "/data/x/src".to_string(),
        source_real: "/data/x/src".to_string(),
        source_parent_real: "/data/x".to_string(),
        ..ends(SrcObjKind::Dir, "/data", DstObjKind::Dir)
    };
    assert_eq!(place(options(), &above).unwrap_err(), PlacementError::Overlap);
    let below = ends(SrcObjKind::Dir, "/data/src/sub", DstObjKind::Dir);
    let p = place(options(), &below).unwrap();
    assert_eq!(p.exclude_rel, Some("sub".to_string()));
    assert!(p.source_contents);
    let overwrite = LocalOptions { overwrite: true, ..options() };
    let here = LocalEnds {
        destination_real: "/data".to_string(),
        slot_real: "/data/src".to_string(),
        destination_display: "/data/".to_string(),
        ..ends(SrcObjKind::Dir, "/data", DstObjKind::Dir)
    };
    let p = place(overwrite, &here).unwrap();
    assert!(p.already_there);
    assert!(overwrite_target(&p, overwrite, &here, Some("/data/src")).unwrap().is_none());
    assert_eq!(PlacementError::OverwritesSource.message().is_empty(), false);
}

#[test]
fn an_overwrite_names_what_it_replaces() {
    let overwrite = LocalOptions { overwrite: true, ..options() };
    let e = ends(SrcObjKind::Dir, "/out", DstObjKind::Dir);
    let p = place(overwrite, &e).unwrap();
    let target = overwrite_target(&p, overwrite, &e, Some("/out/src")).unwrap().unwrap();
    assert_eq!(target.path, "/out/src");
    assert_eq!(target.kind, ObjectKind::Dir);
}

#[test]
fn rows_cover_the_source() {
    let c = PlanCounts { total: 10, added: 3, modified: 2, uncollided: 4 };
    assert_eq!(
        fill_row(c, false, 0, 0),
        CountRow {
            added: 3,
            modified: 2,
            identical: 5,
            uncollided: 4,
            deleted_source: 0,
            deleted_destination: 0,
        }
    );
}

#[test]
fn answers_are_read_kindly() {
    assert_eq!(read_answer("\n"), Answer::Yes);
    assert_eq!(read_answer(" YES \n"), Answer::Yes);
    assert_eq!(read_answer("no\n"), Answer::No);
    assert_eq!(read_answer(""), Answer::Ended);
    assert!(lacks_space(10, false, Some(9)));
    assert!(!lacks_space(10, true, Some(9)));
    assert!(!lacks_space(10, false, None));
    assert_eq!(after_preview(false, false, false, true), AfterPreview::Refuse);
    assert_eq!(after_preview(true, true, false, true), AfterPreview::Stop);
    assert_eq!(after_preview(true, false, false, true), AfterPreview::Proceed { test_reads: true });
}

#[test]
fn a_move_always_has_work() {
    let w = WorkFacts {
        is_move: false,
        already_there: false,
        conflict: false,
        planned_bytes: 0,
        has_planned_changes: false,
        has_itemized_changes: false,
        overwrite_needed: false,
        sync: false,
        uncollided_files: 0,
        uncollided_dirs: 0,
        cleanup: CleanupTotals { files: 0, bytes: 0 },
    };
    assert!(weigh(w).nothing_to_do);
    let m = weigh(WorkFacts { is_move: true, ..w });
    assert!(!m.nothing_to_do);
    assert!(!m.cleanup_only);
    assert!(weigh(WorkFacts { is_move: true, conflict: true, ..w }).cleanup_only);
}

fn plan() -> ExecutionPlan {
    ExecutionPlan {
        is_move: false,
        backup: false,
        backs_up_first: false,
        overwrites: false,
        staged: false,
        premerges: false,
        cleanup_only: false,
        source_is_dir: true,
        source_has_name: true,
        has_manifest: true,
        sync_deletes: false,
    }
}

/// Runs an execution; one step has a result of its own.
fn steps(p: ExecutionPlan, odd: Option<(Step, StepResult)>) -> (Vec<Step>, Ending) {
    let mut seen = vec![];
    let mut step = first_step(p);
    loop {
        if let Step::Finish { ending } = step {
            return (seen, ending);
        }
        seen.push(step);
        let result = match odd {
            Some((at, result)) if at == step => result,
            _ => match step {
                Step::Transfer | Step::TransferToStage => StepResult::Exit { status: 0 },
                _ => StepResult::Succeeded,
            },
        };
        step = next_step(p, step, result);
    }
}

#[test]
fn executions_run_to_their_end() {
    let (seen, ending) = steps(plan(), None);
    assert_eq!(ending, Ending::Done);
    assert!(seen.contains(&Step::Transfer));
    assert!(!seen.contains(&Step::CleanUp));
    let moving = ExecutionPlan { is_move: true, ..plan() };
    let (seen, ending) = steps(moving, None);
    assert_eq!(ending, Ending::Done);
    let flush = seen.iter().position(|s| *s == Step::Flush).unwrap();
    let cleanup = seen.iter().position(|s| *s == Step::CleanUp).unwrap();
    assert!(flush < cleanup);
    let (seen, ending) = steps(moving, Some((Step::Flush, StepResult::Failed)));
    assert_eq!(ending, Ending::FlushFailed);
    assert!(!seen.contains(&Step::CleanUp));
    assert_eq!(exit_code(Ending::Done), 0);
    assert_ne!(exit_code(Ending::FlushFailed), 0);
}

#[test]
fn a_failed_publication_is_undone() {
    let staged = ExecutionPlan { overwrites: true, staged: true, ..plan() };
    let (seen, ending) =
        steps(staged, Some((Step::PublishStage { aside: true }, StepResult::Failed)));
    assert_eq!(ending, Ending::PublishFailed);
    assert!(seen.contains(&Step::MoveTargetAside));
    assert!(seen.contains(&Step::PutTargetBack));
    assert!(!seen.contains(&Step::RemoveOldTarget));
    let (seen, ending) = steps(staged, None);
    assert_eq!(ending, Ending::Done);
    let publish = seen.iter().position(|s| *s == Step::PublishStage { aside: true }).unwrap();
    let removal = seen.iter().position(|s| *s == Step::RemoveOldTarget).unwrap();
    assert!(publish < removal);
}

fn args(source: &str, destination: &str) -> CliArgs {
    CliArgs {
        source: source.to_string(),
        extra: vec![],
        destination: destination.to_string(),
        move_mode: false,
        sync_mode: false,
        sudo: false,
        backup: false,
        overwrite: false,
        contents_only: false,
        preview_only: false,
        preview_lite: false,
        create_destination_parents: false,
        replace_dest_symlink: false,
        merge_collision_policy: policy("source:size-differs"),
        showall: false,
        verify: false,
        tree_depth: None,
        tree_trunc: 20,
    }
}

#[test]
fn requests_are_routed() {
    let local = run(&args("/a/*", "/b")).unwrap();
    assert!(matches!(local.route, Route::Local));
    assert_eq!(local.mode, TransferMode::Copy);
    assert!(local.source_glob_contents);
    assert_eq!(local.source, "/a/");
    let remote = run(&args("/a", "user@host:/b")).unwrap();
    match remote.route {
        Route::Remote { source, destination } => {
            assert!(source.is_none());
            assert_eq!(destination.unwrap().host, "host");
        }
        other => panic!("{:?}", other),
    }
    let mut many = args("/a", "/d");
    many.extra = vec!["/b".to_string()];
    match run(&many).unwrap().route {
        Route::Batch { sources, .. } => assert_eq!(sources, vec!["/a", "/b"]),
        other => panic!("{:?}", other),
    }
}

#[test]
fn requests_that_contradict_themselves_are_refused() {
    let refused = |change: &dyn Fn(&mut CliArgs)| {
        let mut a = args("/a", "/b");
        change(&mut a);
        run(&a).unwrap_err()
    };
    assert_eq!(
        refused(&|a| {
            a.sync_mode = true;
            a.overwrite = true;
        }),
        RunError::SyncWithOverwrite
    );
    assert_eq!(
        refused(&|a| {
            a.sync_mode = true;
            a.move_mode = true;
        }),
        RunError::SyncWithMove
    );
    assert_eq!(
        refused(&|a| {
            a.sync_mode = true;
            a.merge_collision_policy = policy("source:newer");
        }),
        RunError::SyncWithCollisionFlags
    );
    assert_eq!(
        refused(&|a| {
            a.destination = "host:/b".to_string();
            a.create_destination_parents = true;
        }),
        RunError::RemoteParents
    );
    assert_eq!(
        refused(&|a| {
            a.destination = "host:/b".to_string();
            a.merge_collision_policy = policy("source:newer");
        }),
        RunError::CollisionFlagsNeedLocalBackend
    );
    assert_eq!(
        refused(&|a| {
            a.source = "host:/a".to_string();
            a.extra = vec!["/c".to_string()];
        }),
        RunError::ManyRemoteSources
    );
    assert_eq!(
        refused(&|a| {
            a.extra = vec!["/c".to_string()];
            a.contents_only = true;
        }),
        RunError::ManyWithContentsOnly
    );
    assert_eq!(
        refused(&|a| {
            a.extra = vec!["/c".to_string()];
            a.sync_mode = true;
        }),
        RunError::ManyWithSync
    );
    assert!(!RunError::ManyWithSync.message().is_empty());
}
