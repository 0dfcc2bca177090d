use fsx_tools::listing::{
    compute_count_column_layout, depth_shorthand, display_name, is_executable,
    output_mode_enabled, print_node, root_line, shown_paths, tree_plan, validate_sort,
    CountColumnLayout, OutputMode, RowStyle, SortError, TreeArgs,
};
use fsx_tools::scan::{
    claim_inodes, claims_needed, finish_scan, finish_shallow_scan, keeps_dir, scan_dir_claiming,
    seed_size, shallow_visible_ancestors, GitTable, InodeTable, LevelBytes, ScanEntry, ScanOptions, Scanned,
    ScannedDir, SizeTable, Visible,
};
use fsx_tools::tree::{
    build_tree_from_cache, rank_names, EntryMeta, EntryStub, NodeSeed, SortField,
    SortPlan, TreeOptions,
};
use fsx_tools::tree_git::{merge_git_status, write_git_status};

fn tree_args() -> TreeArgs {
    TreeArgs {
        all_toggles: 0,
        no_expand_git_toggles: 0,
        max_depth: 2,
        trunc: 20,
        deep: false,
        long_listing: false,
        sizes: false,
        times: false,
        counts: false,
        dirs_only: false,
        classify: false,
        hide_more_count: false,
        follow_links: false,
        git: false,
        no_git: false,
        color: OutputMode::Auto,
        hyperlink: OutputMode::Never,
        sort: None,
    }
}

fn words(list: &[&str]) -> Vec<String> {
    list.iter().map(|w| w.to_string()).collect()
}

#[test]
fn orders_are_validated() {
    assert!(matches!(validate_sort(&None), Ok(None)));
    match validate_sort(&Some(words(&["size", "asc"]))) {
        Ok(Some(plan)) => {
            assert_eq!(plan, SortPlan { field: SortField::Size, descending: false })
        }
        _ => panic!("no order"),
    }
    match validate_sort(&Some(words(&["colour", "asc"]))) {
        Err(SortError::Field(word)) => assert_eq!(word, "colour"),
        _ => panic!("no error"),
    }
    match validate_sort(&Some(words(&["size", "up"]))) {
        Err(SortError::Direction(word)) => assert_eq!(word, "up"),
        _ => panic!("no error"),
    }
    assert!(matches!(validate_sort(&Some(words(&["size"]))), Err(SortError::Arity)));
}

#[test]
fn toggles_cancel() {
    let plan = |a: &TreeArgs| tree_plan(a, true, false).ok().unwrap();
    let base = plan(&tree_args());
    assert!(base.use_colors);
    assert!(!base.use_hyperlinks);
    let once = plan(&TreeArgs { all_toggles: 1, ..tree_args() });
    let twice = plan(&TreeArgs { all_toggles: 2, ..tree_args() });
    assert_ne!(once.show_all, base.show_all);
    assert_eq!(twice.show_all, base.show_all);
    assert!(output_mode_enabled(OutputMode::Always, false));
    assert!(!output_mode_enabled(OutputMode::Auto, false));
}

#[test]
fn a_number_alone_is_a_depth() {
    assert_eq!(depth_shorthand(&words(&["tree", "3"])), Some(1));
    assert_eq!(depth_shorthand(&words(&["tree", "src"])), None);
}

fn options() -> TreeOptions {
    TreeOptions {
        max_depth: 3,
        trunc: 2,
        dirs_only: false,
        sizes: true,
        times: false,
        counts: true,
        classify: false,
        hide_more_count: false,
        no_expand_git: false,
        sort: None,
    }
}

fn stub(name: &str, is_dir: bool, size: u64) -> EntryStub {
    EntryStub {
        name: name.to_string(),
        path: format!("/r/{}", name),
        is_dir,
        is_symlink: false,
        meta: Some(EntryMeta { is_dir, allocated: size, mtime: Some(1), mode: 0o644 }),
    }
}

#[test]
fn a_tree_shows_what_fits_and_counts_the_rest() {
    let scanned = finish_scan(
        "/r",
        vec![
            ScannedDir {
                path: "/r".to_string(),
                stubs: Some(vec![
                    stub("a", false, 10),
                    stub("d", true, 0),
                    stub("b", false, 20),
                    stub("c", false, 30),
                ]),
                bytes: alike(60),
                dirs: 1,
                files: 3,
            },
            ScannedDir {
                path: "/r/d".to_string(),
                stubs: Some(vec![]),
                bytes: alike(5),
                dirs: 0,
                files: 2,
            },
        ],
        scan_options(),
    );
    assert!(!scanned.overflowed);
    let scan = scanned.scan;
    assert_eq!(scan.size("/r"), 65);
    assert_eq!((scan.dirs("/r"), scan.files("/r")), (1, 5));
    let root = "/r".to_string();
    let seed = NodeSeed {
        path: &root,
        meta: Some(EntryMeta { is_dir: true, allocated: 0, mtime: None, mode: 0o755 }),
        file_type: Some((true, false)),
        is_symlink_hint: None,
    };
    let node = build_tree_from_cache(seed, 1, options(), &scan);
    assert_eq!(node.true_size, 65);
    assert_eq!(node.total_children_count, 4);
    assert_eq!(node.children.len(), 2);
    assert_eq!(node.omitted_dirs_count + node.omitted_files_count, 2);
    let shown: u64 = node.children.iter().map(|c| c.true_size).sum();
    let files: u64 = 10 + 20 + 30;
    assert_eq!(shown + node.omitted_size, 65 + files);
    let mut paths = vec![];
    shown_paths(&node, true, &mut paths);
    shown_paths(&node, false, &mut paths);
    assert_eq!(paths.len(), 2);
    let layout = compute_count_column_layout(&node, options());
    let style = RowStyle {
        sizes: false,
        times: false,
        counts: false,
        git: false,
        colors: false,
        hide_more_count: false,
        layout,
    };
    let mut rows = vec![];
    print_node(&node, &vec![], style, &mut rows);
    assert_eq!(rows.len(), 3);
    assert!(rows[0].starts_with("\u{251c}"));
    assert!(rows[2].starts_with("\u{2514}"));
    assert!(rows[2].contains('2'));
}

#[test]
fn names_and_lines_are_written() {
    assert_eq!(display_name("a", true, false, true, false), "a/");
    assert_eq!(display_name("a", true, false, false, true), "a*");
    assert_eq!(display_name("a", false, false, true, false), "a");
    assert!(is_executable(0o755));
    assert!(!is_executable(0o644));
    assert!(rank_names("a", "b") < 0);
    let style = RowStyle {
        sizes: false,
        times: false,
        counts: false,
        git: false,
        colors: false,
        hide_more_count: false,
        layout: CountColumnLayout { dir_width: 0, file_width: 0 },
    };
    assert_eq!(root_line("1K", None, "here", style), "here");
}

#[test]
fn statuses_merge_and_spread() {
    assert_eq!(merge_git_status(Some("-M"), Some("A-")), Some("AM".to_string()));
    assert_eq!(merge_git_status(None, None), Some("--".to_string()));
    assert_eq!(write_git_status(None), "-- ");
    let mut table = GitTable::new();
    table.spread("/r", "/r/a/b", "-M");
    table.spread("/r", "/r/a/c", "A-");
    assert_eq!(table.get("/r/a"), Some("AM"));
    assert_eq!(table.get("/r"), Some("AM"));
    assert_eq!(table.get("/r/a/b"), Some("-M"));
}

fn scan_options() -> ScanOptions {
    ScanOptions {
        max_depth: 9,
        sizes: true,
        counts: true,
        follow_links: false,
        no_dedupe_hardlinks: false,
        no_expand_git: false,
        classify: false,
        collect_metadata: true,
        shallow: false,
    }
}

fn entry(name: &str, ino: u64, nlink: u64) -> ScanEntry {
    ScanEntry {
        name: name.to_string(),
        path: format!("/r/{}", name),
        readable: true,
        ignored: false,
        is_dir: false,
        is_symlink: false,
        meta: Some(EntryMeta { is_dir: false, allocated: 8, mtime: None, mode: 0o644 }),
        dev: 1,
        ino,
        nlink,
    }
}

fn alike(bytes: u64) -> LevelBytes {
    LevelBytes { root: bytes, first: bytes, second: bytes }
}

fn nothing_above() -> Visible {
    Visible { depth1: None, depth2: None }
}

#[test]
fn hard_links_are_counted_once() {
    let above = nothing_above();
    let mut inodes = InodeTable::new(None);
    let entries = vec![entry("a", 5, 2), entry("b", 5, 2), entry("c", 6, 1)];
    let scan = scan_dir_claiming(0, 0, &entries, scan_options(), &above, &mut inodes);
    assert_eq!(scan.files, 3);
    assert_eq!(scan.bytes, alike(16));
    assert!(!scan.overflowed);
    let more = vec![entry("d", 5, 2)];
    let again = scan_dir_claiming(0, 0, &more, scan_options(), &above, &mut inodes);
    assert_eq!(again.bytes, alike(0));
    let apart = ScanOptions { no_dedupe_hardlinks: true, ..scan_options() };
    let mut fresh = InodeTable::new(None);
    let all = scan_dir_claiming(0, 0, &entries, apart, &above, &mut fresh);
    assert_eq!(all.bytes, alike(24));
    let visible = shallow_visible_ancestors("/r", "/r/a", 1, 9);
    let below = scan_dir_claiming(0, 1, &entries, apart, &visible, &mut fresh);
    assert_eq!(below.bytes, alike(24));
}

fn directory(name: &str, ino: u64) -> ScanEntry {
    let mut found = entry(name, ino, 2);
    found.is_dir = true;
    found.meta = Some(EntryMeta { is_dir: true, allocated: 4, mtime: None, mode: 0o755 });
    found
}

/// Scans `/r` with some directories, each with its depth and what it holds.
fn scan_all(dirs: Vec<(&str, usize, Vec<ScanEntry>)>, o: ScanOptions) -> (Scanned, SizeTable) {
    let mut inodes = InodeTable::new(Some((1, 1)));
    let mut sizes = SizeTable::new();
    let mut found = Vec::new();
    for (path, depth, entries) in dirs {
        let v = shallow_visible_ancestors("/r", path, depth, o.max_depth);
        assert!(!sizes.seed(path, 4, depth, o));
        let seed = seed_size(4, o.sizes, o.shallow);
        let scan = scan_dir_claiming(seed, depth, &entries, o, &v, &mut inodes);
        if o.shallow {
            assert!(!sizes.share("/r", &v, scan.bytes));
        }
        found.push(ScannedDir {
            path: path.to_string(),
            stubs: scan.stubs,
            bytes: scan.bytes,
            dirs: scan.dirs,
            files: scan.files,
        });
    }
    (finish_scan("/r", found, o), sizes)
}

#[test]
fn a_link_counts_once_for_the_root_and_once_in_each_shown_directory() {
    let dirs = || {
        vec![
            ("/r", 0, vec![directory("a", 2), directory("b", 3)]),
            ("/r/a", 1, vec![entry("x", 9, 2)]),
            ("/r/b", 1, vec![entry("y", 9, 2)]),
        ]
    };
    let (scanned, _) = scan_all(dirs(), scan_options());
    assert!(!scanned.overflowed);
    assert_eq!(scanned.scan.size("/r/a"), 4 + 8);
    assert_eq!(scanned.scan.size("/r/b"), 4 + 8);
    assert_eq!(scanned.scan.size("/r"), 4 + 4 + 4 + 8);
    let shallow = ScanOptions { max_depth: 1, counts: false, shallow: true, ..scan_options() };
    let (scanned, sizes) = scan_all(dirs(), shallow);
    let shown = vec!["/r".to_string(), "/r/a".to_string(), "/r/b".to_string()];
    let scan = finish_shallow_scan(scanned.scan, &shown, &sizes);
    assert_eq!(scan.size("/r/a"), 4 + 8);
    assert_eq!(scan.size("/r/b"), 4 + 8);
    assert_eq!(scan.size("/r"), 4 + 4 + 4 + 8);
    let apart = ScanOptions { no_dedupe_hardlinks: true, ..scan_options() };
    let (scanned, _) = scan_all(dirs(), apart);
    assert_eq!(scanned.scan.size("/r"), 4 + 4 + 4 + 8 + 8);
}

#[test]
fn a_first_level_directory_counts_a_link_of_two_second_level_ones_once() {
    let (scanned, _) = scan_all(
        vec![
            ("/r", 0, vec![directory("a", 2)]),
            ("/r/a", 1, vec![directory("p", 3), directory("q", 4)]),
            ("/r/a/p", 2, vec![entry("x", 9, 3), entry("y", 9, 3)]),
            ("/r/a/q", 2, vec![entry("z", 9, 3)]),
        ],
        scan_options(),
    );
    assert_eq!(scanned.scan.size("/r/a/p"), 4 + 8);
    assert_eq!(scanned.scan.size("/r/a/q"), 4 + 8);
    assert_eq!(scanned.scan.size("/r/a"), 4 + 4 + 4 + 8);
    assert_eq!(scanned.scan.size("/r"), 4 + 4 + 4 + 4 + 8);
}

#[test]
fn a_followed_directory_is_gone_through_once() {
    let o = ScanOptions { follow_links: true, ..scan_options() };
    let v = nothing_above();
    let mut inodes = InodeTable::new(Some((1, 1)));
    let claim = |e: &ScanEntry, inodes: &mut InodeTable| {
        claim_inodes(e, claims_needed(e, o, &v), &v, inodes).dir
    };
    assert!(claim(&directory("a", 2), &mut inodes));
    assert!(!claim(&directory("b", 2), &mut inodes));
    assert!(!claim(&directory("top", 1), &mut inodes));
}

#[test]
fn a_directory_starts_with_its_own_size() {
    assert_eq!(seed_size(7, true, false), 7);
    assert_eq!(seed_size(7, true, true), 0);
    assert_eq!(seed_size(7, false, false), 0);
}

#[test]
fn shown_ancestors_share_what_is_below() {
    let v = shallow_visible_ancestors("/r", "/r/a/b/c", 3, 2);
    assert_eq!(v.depth1, Some("/r/a".to_string()));
    assert_eq!(v.depth2, Some("/r/a/b".to_string()));
    let mut sizes = SizeTable::new();
    assert!(!sizes.share("/r", &v, LevelBytes { root: 5, first: 6, second: 7 }));
    assert!(!sizes.increase("/r/a", 1));
    assert_eq!(sizes.get("/r/a"), Some(7));
    assert_eq!(sizes.get("/r/a/b"), Some(7));
    assert_eq!(sizes.get("/r"), Some(5));
    assert_eq!(sizes.get("/x"), None);
}

#[test]
fn sums_that_are_too_large_are_shown_as_the_largest_number() {
    let scanned = finish_scan(
        "/r",
        vec![ScannedDir {
            path: "/r".to_string(),
            stubs: Some(vec![stub("a", false, u64::MAX), stub("b", false, 7), stub("c", false, 9)]),
            bytes: alike(u64::MAX),
            dirs: 0,
            files: 3,
        }],
        scan_options(),
    );
    let root = "/r".to_string();
    let seed = NodeSeed {
        path: &root,
        meta: Some(EntryMeta { is_dir: true, allocated: 0, mtime: None, mode: 0o755 }),
        file_type: Some((true, false)),
        is_symlink_hint: None,
    };
    let node = build_tree_from_cache(seed, 1, options(), &scanned.scan);
    assert_eq!(node.true_size, u64::MAX);
    assert_eq!(node.omitted_size, u64::MAX);
}

#[test]
fn a_shallow_scan_keeps_what_can_be_shown() {
    let dirs = || {
        vec![
            ("/r", 0, vec![directory("a", 2)]),
            ("/r/a", 1, vec![directory("p", 3)]),
            ("/r/a/p", 2, vec![entry("x", 9, 1)]),
        ]
    };
    let shallow = ScanOptions { max_depth: 1, counts: false, shallow: true, ..scan_options() };
    let (scanned, sizes) = scan_all(dirs(), shallow);
    assert!(scanned.scan.get("/r").is_some());
    assert!(scanned.scan.get("/r/a").is_some());
    assert!(scanned.scan.get("/r/a/p").is_none());
    let shown = vec!["/r".to_string(), "/r/a".to_string()];
    let scan = finish_shallow_scan(scanned.scan, &shown, &sizes);
    assert!(scan.get("/r/a/p").is_none());
    assert_eq!(scan.size("/r/a"), 4 + 4 + 8);
    let (scanned, _) = scan_all(dirs(), scan_options());
    assert!(scanned.scan.get("/r/a/p").is_some());
    assert!(keeps_dir("/r/a", "/r", shallow));
    assert!(!keeps_dir("/r/a/p", "/r", shallow));
    assert!(keeps_dir("/r/a/p", "/r", scan_options()));
}
