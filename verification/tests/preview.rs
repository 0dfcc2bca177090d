use fsx_tools::change_tree::{build_change_tree, ChangeTree};
use fsx_tools::domain::{ChangeItem, ChangeKind, SrcObjKind};
use fsx_tools::level::{select_level_entries, DirRow, LevelEntry};
use fsx_tools::preview::{
    format_hidden_top_summary, join_rel, remap_item_under_prefix, remap_path_set_under_prefix,
    show_from_backup_directory, show_removed_source, show_under_new_name, state_sort_priority,
    EntryState, PreviewContents,
};
use fsx_tools::showall::{
    render_showall_tree_to_string_with_cache, DirCache, RootNames, ShowAllInput, TreePreview,
};
use fsx_tools::table::NameSet;
use fsx_tools::top::{
    collect_source_top_entries, extra_names, render_best, render_changed_top_preview, BestPreview,
    ExtraFacts, TopInput,
};

fn change(kind: ChangeKind, rel: &str) -> ChangeItem {
    ChangeItem {
        kind,
        rel: rel.to_string(),
    }
}

fn names(list: &[&str]) -> NameSet {
    let mut set = NameSet::new();
    for name in list {
        set.insert(name.to_string());
    }
    set
}

fn no_names() -> RootNames {
    RootNames {
        added: names(&[]),
        modified: names(&[]),
        replaced: names(&[]),
        removed: names(&[]),
        directories: names(&[]),
    }
}

fn row(name: &str, is_dir: bool) -> DirRow {
    DirRow {
        name: name.to_string(),
        is_dir,
    }
}

#[test]
fn new_directory_with_new_children_stays_added() {
    let tree = build_change_tree(&vec![
        change(ChangeKind::NewDir, "lancedb/"),
        change(ChangeKind::NewDir, "lancedb/collection.lance/"),
        change(ChangeKind::NewFile, "lancedb/collection.lance/data"),
    ]);

    assert_eq!(
        tree.get("/lancedb").and_then(|node| node.state),
        Some(EntryState::Added)
    );
    assert_eq!(
        tree.get("/lancedb/collection.lance")
            .and_then(|node| node.state),
        Some(EntryState::Added)
    );
}

#[test]
fn new_directory_with_a_collision_stays_modified() {
    let tree = build_change_tree(&vec![
        change(ChangeKind::NewDir, "lancedb/"),
        change(ChangeKind::NewFile, "lancedb/new"),
        change(ChangeKind::ModFile, "lancedb/existing"),
    ]);

    assert_eq!(
        tree.get("/lancedb").and_then(|node| node.state),
        Some(EntryState::Modified)
    );
}

#[test]
fn a_path_without_names_is_no_change() {
    let tree = build_change_tree(&vec![
        change(ChangeKind::NewFile, " ./ "),
        change(ChangeKind::NewFile, "//"),
        change(ChangeKind::RemovedFile, "./x"),
    ]);
    assert_eq!(tree.len(), 1);
    assert_eq!(tree.key(0), "/x");
    assert_eq!(
        tree.get("/x").and_then(|node| node.state),
        Some(EntryState::Removed)
    );
}

#[test]
fn format_hidden_top_summary_uses_requested_order_with_deleted_suffix() {
    let line = format_hidden_top_summary(1, 1, 1, 1, 1, false).expect("summary");
    assert_eq!(
        line,
        "1 more new 1 more modified 1 more identical 1 more uncollided 1 more deleted"
    );
}

#[test]
fn format_hidden_top_summary_omits_zero_categories() {
    let line = format_hidden_top_summary(0, 0, 0, 4, 0, false).expect("summary");
    assert_eq!(line, "4 more uncollided");
}

#[test]
fn format_hidden_top_summary_combines_identical_and_unchanged_when_requested() {
    let line = format_hidden_top_summary(0, 0, 3, 4, 0, true).expect("summary");
    assert_eq!(line, "7 more identical/uncollided");
}

#[test]
fn nothing_hidden_is_not_mentioned() {
    assert_eq!(format_hidden_top_summary(0, 0, 0, 0, 0, true), None);
}

#[test]
fn items_move_under_a_prefix_once() {
    assert_eq!(remap_item_under_prefix("", "p"), "p/");
    assert_eq!(remap_item_under_prefix("a", "p"), "p/a");
    assert_eq!(remap_item_under_prefix("p", "p"), "p");
    assert_eq!(remap_item_under_prefix("p/a", "p"), "p/a");
    assert_eq!(remap_item_under_prefix("pa", "p"), "p/pa");
    let set = remap_path_set_under_prefix(&names(&["", "a/"]), "p");
    assert_eq!(set.into_names(), ["p", "p/a"]);
    assert_eq!(join_rel("", "a"), "a");
    assert_eq!(join_rel("b", "a"), "b/a");
}

#[test]
fn every_entry_is_shown_or_counted() {
    let entry = |name: &str, state| LevelEntry {
        name: name.to_string(),
        state,
        is_dir: false,
    };
    let all = vec![
        entry("same", EntryState::Identical),
        entry("b", EntryState::Added),
        entry("a", EntryState::Added),
        entry("m", EntryState::Modified),
        entry("gone", EntryState::Removed),
    ];
    let picked = select_level_entries(&all, 2, false);
    let shown: Vec<&str> = picked.selected.iter().map(|e| e.name.as_str()).collect();
    assert_eq!(shown, ["m", "a"]);
    assert_eq!(picked.hidden.new_count, 1);
    assert_eq!(picked.hidden.deleted_count, 1);
    assert_eq!(picked.hidden.identical_count, 1);
    assert_eq!(picked.hidden.total() + shown.len(), all.len());
    let picked = select_level_entries(&all, 10, true);
    assert_eq!(picked.selected.len(), 5);
    assert_eq!(picked.hidden.total(), 0);
}

fn input<'a>(
    tree: &'a ChangeTree,
    sources: &'a NameSet,
    max_depth: usize,
    dirs: &'a DirCache,
) -> ShowAllInput<'a> {
    ShowAllInput {
        tree,
        sources,
        include_unchanged: false,
        max_depth,
        trunc: 10,
        dirs,
    }
}

#[test]
fn a_tree_preview_shows_changes_level_by_level() {
    let tree = build_change_tree(&vec![
        change(ChangeKind::NewFile, "dir/new"),
        change(ChangeKind::ModFile, "old"),
    ]);
    let sources = names(&["dir/new", "old"]);
    let mut dirs = DirCache::new();
    dirs.put(
        "/dst".to_string(),
        vec![row("dir", true), row("old", false), row("other", false)],
    );
    let root_names = no_names();
    match render_showall_tree_to_string_with_cache(
        "/dst",
        &input(&tree, &sources, 1, &dirs),
        &root_names,
        Some(25),
    ) {
        TreePreview::Text(text) => assert_eq!(
            text,
            "├── \x1b[93mdir/\x1b[0m\n├── \x1b[93mold\x1b[0m\n└── ... and 1 more identical/uncollided\n"
        ),
        _ => panic!("one level fits"),
    }
    match render_showall_tree_to_string_with_cache(
        "/dst",
        &input(&tree, &sources, 2, &dirs),
        &root_names,
        Some(25),
    ) {
        TreePreview::Need(path) => assert_eq!(path, "/dst/dir"),
        _ => panic!("the directory has not been read"),
    }
    dirs.put("/dst/dir".to_string(), vec![]);
    match render_showall_tree_to_string_with_cache(
        "/dst",
        &input(&tree, &sources, 2, &dirs),
        &root_names,
        Some(25),
    ) {
        TreePreview::Text(text) => assert_eq!(
            text,
            "├── \x1b[93mdir/\x1b[0m\n│   └── \x1b[92mnew\x1b[0m\n├── \x1b[93mold\x1b[0m\n└── ... and 1 more identical/uncollided\n"
        ),
        _ => panic!("two levels fit"),
    }
    match render_showall_tree_to_string_with_cache(
        "/dst",
        &input(&tree, &sources, 2, &dirs),
        &root_names,
        Some(3),
    ) {
        TreePreview::TooLong => {}
        _ => panic!("four lines are too many"),
    }
}

#[test]
fn a_replaced_entry_has_two_rows() {
    let tree = build_change_tree(&vec![]);
    let sources = names(&[]);
    let mut dirs = DirCache::new();
    dirs.put("/d".to_string(), vec![row("x", false)]);
    let root_names = RootNames {
        replaced: names(&["x"]),
        removed: names(&["y"]),
        ..no_names()
    };
    let input = ShowAllInput {
        tree: &tree,
        sources: &sources,
        include_unchanged: false,
        max_depth: 1,
        trunc: 10,
        dirs: &dirs,
    };
    match render_showall_tree_to_string_with_cache("/d", &input, &root_names, None) {
        TreePreview::Text(text) => assert_eq!(
            text,
            "├── \x1b[91mx (old)\x1b[0m\n├── \x1b[92mx (new)\x1b[0m\n└── \x1b[91my (removed)\x1b[0m\n"
        ),
        _ => panic!("three lines fit"),
    }
}

#[test]
fn the_deepest_preview_that_fits_is_taken() {
    let mut items = vec![];
    for i in 0..30 {
        items.push(change(ChangeKind::NewFile, &format!("dir/f{i:02}")));
    }
    let tree = build_change_tree(&items);
    let sources = names(&[]);
    let mut dirs = DirCache::new();
    dirs.put("/d".to_string(), vec![]);
    dirs.put("/d/dir".to_string(), vec![]);
    let root_names = no_names();
    let input = |trunc| ShowAllInput {
        tree: &tree,
        sources: &sources,
        include_unchanged: false,
        max_depth: 3,
        trunc,
        dirs: &dirs,
    };
    match render_best("/d", &input(40), &root_names) {
        BestPreview::Text(text) => assert_eq!(text, "└── \x1b[93mdir/\x1b[0m\n"),
        _ => panic!("one level fits"),
    }
    match render_best("/d", &input(2), &root_names) {
        BestPreview::Text(text) => assert_eq!(
            text,
            "└── \x1b[93mdir/\x1b[0m\n    ├── \x1b[92mf00\x1b[0m\n    ├── \x1b[92mf01\x1b[0m\n    └── ... and 28 more new\n"
        ),
        _ => panic!("all levels fit"),
    }
}

#[test]
fn the_names_at_the_root_are_summed_up() {
    let items = vec![
        change(ChangeKind::NewFile, "a/x"),
        change(ChangeKind::NewFile, "b"),
        change(ChangeKind::ModFile, "c"),
    ];
    let root_names = no_names();
    let existing = names(&["b", "c", "z"]);
    let sources = names(&["a", "b", "c"]);
    let text = |unchanged, max| {
        render_changed_top_preview(
            TopInput {
                items: &items,
                names: &root_names,
                existing: &existing,
                source_top_entries: &sources,
            },
            unchanged,
            max,
        )
    };
    assert_eq!(
        text(false, 10),
        "├── \x1b[93mb\x1b[0m\n├── \x1b[93mc\x1b[0m\n└── \x1b[92ma/\x1b[0m\n... and 1 more identical/uncollided\n"
    );
    assert_eq!(
        text(true, 2),
        "├── \x1b[93mb\x1b[0m\n└── \x1b[93mc\x1b[0m\n... and 1 more new 1 more uncollided\n"
    );
    let none = vec![];
    let nothing = names(&[]);
    let text = render_changed_top_preview(
        TopInput {
            items: &none,
            names: &root_names,
            existing: &nothing,
            source_top_entries: &nothing,
        },
        false,
        5,
    );
    assert_eq!(text, "(no new additions)\n");
}

#[test]
fn names_known_beforehand_follow_the_plan() {
    let facts = ExtraFacts {
        backup: Some("/d/old.bak".to_string()),
        overwrite_target: None,
        preview_inside_target_dir: false,
        rename_target_only: Some("new/".to_string()),
        rename_target_is_dir: false,
        existing_same_name_target: false,
        simple_rename_src: Some("s".to_string()),
        simple_rename_dst: None,
        is_move: true,
    };
    let extra = extra_names(&facts);
    assert_eq!(extra.added.into_names(), ["old.bak", "new"]);
    assert_eq!(extra.removed.into_names(), ["s"]);
    assert!(extra.replaced.into_names().is_empty());
    let extra = extra_names(&ExtraFacts {
        overwrite_target: Some("/d/t".to_string()),
        existing_same_name_target: true,
        is_move: false,
        ..facts
    });
    assert!(extra.added.into_names().is_empty());
    assert_eq!(extra.replaced.into_names(), ["t"]);
    assert!(extra.removed.into_names().is_empty());
}

#[test]
fn a_source_brings_its_name_or_its_contents() {
    let of = |kind, include_root, renamed, children: &[&str]| {
        collect_source_top_entries("/s/dir", kind, include_root, None, renamed, true, names(children))
            .into_names()
    };
    assert_eq!(of(SrcObjKind::Dir, false, None, &["a", "b"]), ["a", "b"]);
    assert_eq!(of(SrcObjKind::Dir, true, None, &["a"]), ["dir"]);
    assert_eq!(of(SrcObjKind::Dir, true, Some("n/"), &["a"]), ["n"]);
    assert_eq!(of(SrcObjKind::File, true, Some("/"), &[]), ["dir"]);
}

fn contents() -> PreviewContents {
    PreviewContents {
        root: "/data/out/".to_string(),
        items: vec![change(ChangeKind::NewFile, "./a"), change(ChangeKind::ModFile, "new/b")],
        sources: names(&["a", "d/"]),
    }
}

fn shown(c: &PreviewContents) -> Vec<(ChangeKind, &str)> {
    c.items.iter().map(|item| (item.kind, item.rel.as_str())).collect()
}

#[test]
fn a_renamed_directory_is_shown_under_its_new_name() {
    let moved = show_under_new_name(contents(), "new", true);
    assert_eq!(
        shown(&moved),
        [(ChangeKind::NewFile, "new/a"), (ChangeKind::ModFile, "new/b")]
    );
    assert_eq!(moved.root, "/data/out/");
    assert_eq!(moved.sources.into_names(), ["new/a", "new/d"]);
    let kept = show_under_new_name(contents(), "new", false);
    assert_eq!(kept.sources.into_names(), ["a", "d/"]);
}

#[test]
fn a_backup_beside_the_root_is_shown_from_above() {
    let moved = show_from_backup_directory(contents(), "/data", true);
    assert_eq!(moved.root, "/data/");
    assert_eq!(
        shown(&moved),
        [(ChangeKind::NewFile, "out/a"), (ChangeKind::ModFile, "out/new/b")]
    );
    assert_eq!(moved.sources.into_names(), ["out/a", "out/d"]);
    let bare = show_from_backup_directory(contents(), "/data", false);
    assert_eq!(bare.root, "/data/");
    assert_eq!(bare.items.len(), 2);
    assert_eq!(bare.items[0].rel, "./a");
}

#[test]
fn a_merged_directory_is_shown_as_removed() {
    let mut c = contents();
    show_removed_source(&mut c, "/data/out/child", "/data/out");
    assert_eq!(shown(&c).last(), Some(&(ChangeKind::RemovedDir, "child/")));
    show_removed_source(&mut c, "/data/out", "/data/out");
    show_removed_source(&mut c, "/elsewhere", "/data/out");
    assert_eq!(c.items.len(), 3);
}

#[test]
fn changes_stand_first() {
    assert_eq!(state_sort_priority(EntryState::Modified), 0);
    assert_eq!(state_sort_priority(EntryState::Replaced), 0);
    assert_eq!(state_sort_priority(EntryState::Added), 1);
    assert_eq!(state_sort_priority(EntryState::Removed), 2);
    assert_eq!(state_sort_priority(EntryState::Identical), 3);
    assert_eq!(state_sort_priority(EntryState::Uncollided), 4);
    assert_eq!(state_sort_priority(EntryState::Unchanged), 9);
}

#[test]
fn a_preview_shows_no_directory_unread() {
    let items = vec![change(ChangeKind::NewFile, "dir/new")];
    let tree = build_change_tree(&items);
    let sources = names(&[]);
    let root_names = no_names();
    let mut dirs = DirCache::new();
    let mut asked = Vec::new();
    let text = loop {
        let input = ShowAllInput {
            tree: &tree,
            sources: &sources,
            include_unchanged: true,
            max_depth: 2,
            trunc: 10,
            dirs: &dirs,
        };
        match render_best("/d", &input, &root_names) {
            BestPreview::Text(text) => break text,
            BestPreview::NoDepth => panic!("two levels fit"),
            BestPreview::Need(path) => {
                let rows = match path.as_str() {
                    "/d" => vec![row("dir", true)],
                    _ => vec![row("old", false)],
                };
                asked.push(path.clone());
                dirs.put(path, rows);
            }
        }
    };
    assert_eq!(asked, ["/d", "/d/dir"]);
    assert!(text.contains("new") && text.contains("old"));
}
