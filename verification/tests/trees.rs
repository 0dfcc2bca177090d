use fsx_tools::aggregation::{fold, sort_prefix, FoldEntry};
use fsx_tools::reverse::{reverse_rendered_output, reverse_text, strip_ansi};

fn entry(path: &str, totals: [u64; 3]) -> FoldEntry {
    FoldEntry {
        path: path.to_string(),
        totals,
    }
}

#[test]
fn compact_folding_preserves_all_metrics_and_sibling_boundaries() {
    let folded = fold(vec![
        entry("/a/b/c", [7, 2, 0]),
        entry("/a/b", [3, 0, 1]),
        entry("/a/bc", [11, 1, 0]),
        entry("/a", [5, 0, 2]),
    ]);
    assert!(!folded.overflowed);
    let value = |path: &str| {
        folded
            .entries
            .iter()
            .find(|e| e.path == path)
            .expect("entry")
            .totals
    };
    assert_eq!(value("/a"), [26, 3, 3]);
    assert_eq!(value("/a/b"), [10, 2, 1]);
    let folded = fold(vec![
        entry("/a", [u64::MAX, 0, 0]),
        entry("/a/b", [1, 0, 0]),
    ]);
    assert!(folded.overflowed);
    assert_eq!(folded.entries[0].totals[0], u64::MAX);
}

#[test]
fn a_missing_level_is_passed_over() {
    let folded = fold(vec![entry("/a/b/c", [1, 1, 1]), entry("/", [2, 2, 2])]);
    assert_eq!(folded.entries[0].path, "/");
    assert_eq!(folded.entries[0].totals, [3, 3, 3]);
}

#[test]
fn prefix_matches_full_sort_and_preserves_omitted_entries() {
    let source: Vec<usize> = (0..1000).rev().collect();
    for limit in [0, 1, 9, 999, 1000, 2000] {
        let mut full = source.clone();
        full.sort_unstable();
        let selected = sort_prefix(source.clone(), limit);
        let n = limit.min(source.len());
        assert_eq!(selected[..n], full[..n]);
        assert_eq!(
            selected[n..].iter().sum::<usize>(),
            full[n..].iter().sum::<usize>()
        );
    }
}

#[test]
fn nothing_is_sorted_where_nothing_is_shown() {
    assert_eq!(sort_prefix(vec![3usize, 1, 2], 0), vec![3, 1, 2]);
}

#[test]
fn reverse_render_keeps_top_level_and_root_punctuation() {
    let output = ".\n├── dir/\n│   ├── child\n│   └── child2\n└── last\n";
    let reversed = String::from_utf8(reverse_rendered_output(output.as_bytes())).expect("utf8");
    let lines: Vec<&str> = reversed.lines().collect();
    assert_eq!(lines.first(), Some(&"┌── last"));
    assert_eq!(lines.get(1), Some(&"│   ┌── child2"));
    assert_eq!(lines.last(), Some(&"·"));
}

#[test]
fn reverse_render_handles_wide_tree_glyphs_without_byte_slicing() {
    let output = "  15.6G 2026-08-09 12:00 │   ├── directory/\n.\n";
    let reversed = reverse_rendered_output(output.as_bytes());
    assert!(String::from_utf8(reversed).is_ok());
}

#[test]
fn bytes_that_are_no_text_are_marked() {
    let reversed = reverse_rendered_output(b"x\xff\ny\n");
    assert_eq!(String::from_utf8(reversed).expect("utf8"), "y\nx\u{fffd}\n");
}

#[test]
fn colors_and_links_are_seen_through() {
    let chars: Vec<char> = "a\x1b[1;36mb\x1b[0mc\x1b]8;;file:///x\x1b\\d\x1b]8;;\x07e"
        .chars()
        .collect();
    let plain: String = strip_ansi(&chars).into_iter().collect();
    assert_eq!(plain, "abcde");
    assert_eq!(
        reverse_text("\x1b[1m.\x1b[0m\n\x1b[2m└── \x1b[0ma\n"),
        "\x1b[2m┌── \x1b[0ma\n\x1b[1m·\n"
    );
    assert_eq!(reverse_text(""), "");
}
