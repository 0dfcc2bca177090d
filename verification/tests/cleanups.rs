use fsx_tools::cleanup::{
    empty_dirs_command, judge_reach, parents_below, removal_commands, Reach,
    Sweep, SweepStep,
};
use fsx_tools::domain::TransferMode;
use fsx_tools::engine::AncestorKind;
use fsx_tools::journal::{
    begin_text, exit_status, is_incomplete, journal_directory, journal_end, journals_to_remove,
    last_state, operation_id, JournalEnd, JournalFile, JournalState,
};
use fsx_tools::rename::{may_rename_child, PreMergeFastRenameStats, TopTally};

#[test]
fn journals_tell_their_last_state() {
    let sources = vec!["/a".to_string(), "/b".to_string()];
    let id = operation_id(42, 1_234_567_890);
    assert_eq!(id, "42-1234567890");
    let mut text = begin_text(&id, "abc", 1_234_567_890, TransferMode::Move, &sources, "/d");
    assert_eq!(
        text,
        "version=2\noperation_id=42-1234567890\nbuild_git_sha=abc\nstarted_unix_ms=1234\nmode=move\nsource=/a\nsource=/b\ndestination=/d\nstate=planned\n"
    );
    assert_eq!(last_state(&text), Some("planned".to_string()));
    assert!(!is_incomplete(&text));
    let mut state = JournalState::new();
    text.push_str(&state.mark("transferring", 77));
    assert!(text.ends_with("state=transferring\ntransition_sequence=1\ntransition_unix_ms=77\n"));
    assert!(is_incomplete(&text));
    text.push_str(&state.mark("complete", 78));
    assert_eq!(last_state(&text), Some("complete".to_string()));
    assert!(!is_incomplete(&text));
    assert_eq!(last_state("nothing"), None);
}

#[test]
fn journals_are_kept_by_age() {
    let files = |n: usize| {
        (0..n)
            .map(|i| JournalFile { modified: (n - i) as i128, path: format!("{}", n - i) })
            .collect::<Vec<_>>()
    };
    assert!(journals_to_remove(files(128)).is_empty());
    let removed: Vec<String> = journals_to_remove(files(130)).into_iter().map(|f| f.path).collect();
    assert_eq!(removed, vec!["1", "2"]);
    assert_eq!(journal_directory(Some("/s"), Some("/h"), "/tmp"), "/s/copy-rs");
    assert_eq!(journal_directory(None, Some("/h"), "/tmp"), "/h/.local/state/copy-rs");
    assert_eq!(journal_directory(None, None, "/tmp"), "/tmp/copy-rs-state/copy-rs");
}

#[test]
fn journals_end_with_the_operation() {
    assert_eq!(journal_end(0), JournalEnd::Publish);
    assert_eq!(journal_end(1), JournalEnd::Fail);
    assert_eq!(exit_status(0, true), 0);
    assert_ne!(exit_status(0, false), 0);
    assert_eq!(exit_status(7, false), 7);
}

#[test]
fn emptied_directories_are_swept_from_below() {
    let mut sweep = Sweep::new("/r", true);
    let mut seen = vec![];
    loop {
        match sweep.next() {
            SweepStep::List { dir } => {
                let below = if dir == "/r" { vec!["/r/a".to_string()] } else { vec![] };
                sweep.listed(below);
            }
            SweepStep::Try { dir } => seen.push(dir),
            SweepStep::Spare => (),
            SweepStep::Done => break,
        }
    }
    assert_eq!(seen, vec!["/r/a", "/r"]);
}

#[test]
fn removal_is_handed_on_in_commands() {
    assert!(removal_commands(&vec![]).is_empty());
    let one = removal_commands(&vec!["/a b".to_string()]);
    assert_eq!(one.len(), 1);
    assert_eq!(one[0].last().unwrap(), "/a b");
    let command = empty_dirs_command("/r", false);
    assert_eq!(command[0], "find");
    assert!(command.contains(&"/r".to_string()));
    assert!(command.contains(&"-mindepth".to_string()));
    assert!(!empty_dirs_command("/r", true).contains(&"-mindepth".to_string()));
}

#[test]
fn nothing_is_removed_through_a_link() {
    assert_eq!(judge_reach(AncestorKind::Directory), Reach::Continue);
    assert_eq!(judge_reach(AncestorKind::Missing), Reach::Unreachable);
    assert_eq!(judge_reach(AncestorKind::Link), Reach::Refuse);
    assert_eq!(judge_reach(AncestorKind::Unknown), Reach::Fail);
    assert_eq!(parents_below("/r/a/b/c", "/r"), vec!["/r/a/b", "/r/a"]);
}

#[test]
fn children_are_renamed_where_nothing_is_in_the_way() {
    assert!(may_rename_child("a", None, "/s/a", "/d/a", false, true));
    assert!(!may_rename_child("a", None, "/s/a", "/d/a", true, true));
    assert!(!may_rename_child("a", None, "/s/a", "/d/a", false, false));
    assert!(!may_rename_child("a", Some("a"), "/s/a", "/d/a", false, true));
    let mut stats = PreMergeFastRenameStats::none();
    stats.count(TopTally { files: 2, bytes: 10, copy_bytes: 4 });
    stats.count(TopTally { files: 1, bytes: 1, copy_bytes: 1 });
    assert_eq!(
        stats,
        PreMergeFastRenameStats {
            moved_entries: 2,
            moved_files: 3,
            moved_bytes: 11,
            removed_copy_bytes: 5,
        }
    );
}
