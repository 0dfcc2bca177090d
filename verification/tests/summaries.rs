use fsx_tools::domain::{FileRelationBreakdown, TransferMode};
use fsx_tools::execution::CountRow;
use fsx_tools::summary::{
    count_col_width, counts_table, fmt_mode_word, format_number, log_line, preview_counts_table,
    preview_root_line, table_row, LogLevel,
};

fn row(added: u64, modified: u64) -> CountRow {
    CountRow {
        added,
        modified,
        identical: 0,
        uncollided: 7,
        deleted_source: 0,
        deleted_destination: 1,
    }
}

#[test]
fn numbers_are_grouped_by_thousands() {
    assert_eq!(format_number(0), "0");
    assert_eq!(format_number(999), "999");
    assert_eq!(format_number(1000), "1,000");
    assert_eq!(format_number(1234567), "1,234,567");
    assert_eq!(count_col_width("New", &[5, 12345]), 6);
    assert_eq!(count_col_width("Longer", &[5]), 6);
}

#[test]
fn counts_stand_in_columns() {
    assert_eq!(
        counts_table(Some(row(1234, 2)), Some(row(0, 0))),
        vec![
            "Type  |   New | Mod | Ident | Uncol | Del(src) | Del(dest)",
            "Files | 1,234 |   2 |     0 |     7 |        0 |         1",
            "Dirs  |     0 |   0 |     0 |     7 |        0 |         1",
        ]
    );
    assert_eq!(
        table_row("ab", &vec!["1".to_string(), "22".to_string()], &vec![2, 2]),
        "ab    |  1 | 22"
    );
}

#[test]
fn previews_break_files_down() {
    let b = FileRelationBreakdown {
        same_time_same_size: 1,
        same_time_source_larger: 2,
        same_time_source_smaller: 3,
        same_size_source_newer: 4,
        same_size_source_older: 5,
        source_older_smaller: 6,
        source_older_larger: 7,
        source_newer_smaller: 8,
        source_newer_larger: 9,
    };
    let lines = preview_counts_table(Some(row(1, 2)), None, b);
    assert_eq!(
        lines[0],
        "Type  | New | Uncol | Time=Size= | Time=Size+ | Time=Size- | Time+Size="
    );
    assert_eq!(
        lines[1],
        "Files |   1 |     7 |          1 |          2 |          3 |          4"
    );
    assert!(lines.iter().any(|l| l.starts_with("Files") && l.ends_with("|         1")));
}

#[test]
fn messages_carry_their_weight() {
    assert_eq!(
        log_line(TransferMode::Move, "done", LogLevel::Info),
        "\u{1b}[94mmove: done\u{1b}[0m"
    );
    assert_eq!(
        log_line(TransferMode::Copy, "bad", LogLevel::Error),
        "\u{1b}[91mERROR: bad\u{1b}[0m"
    );
    assert_eq!(
        log_line(TransferMode::Copy, "hm", LogLevel::Warn),
        "\u{1b}[93mWARNING: hm\u{1b}[0m"
    );
    assert_eq!(fmt_mode_word("Sync", true), "\u{1b}[92mSync\u{1b}[0m");
    assert_eq!(fmt_mode_word("Sync", false), "\u{1b}[90mSync\u{1b}[0m");
}

#[test]
fn a_new_leaf_is_set_off() {
    assert_eq!(preview_root_line("/a/b/", false, false), "/a/b/");
    assert_eq!(preview_root_line("/a/b/", false, true), "\u{1b}[93m/a/b/\u{1b}[0m");
    assert_eq!(preview_root_line("/a/b/", true, false), "\u{1b}[93m/a/\u{1b}[92mb/\u{1b}[0m");
    assert_eq!(preview_root_line("/b", true, false), "\u{1b}[93m/\u{1b}[92mb/\u{1b}[0m");
    assert_eq!(preview_root_line("/", true, false), "\u{1b}[93m/\u{1b}[0m");
}
