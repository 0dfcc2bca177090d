use fsx_tools::progress::{
    build_progress_bar, clamp_line_for_columns, copy_duration_summary, fit_bar_width, fmt_hms_ms,
    fmt_hms_tenths, format_object_progress_line, progress_lines, summary_rate_line,
    visual_rows_for_frame, BarFill, CleanupDurations, CopyDurations, ObjectProgress, Pace,
    ProgressRenderState, ProgressTexts, RateRow,
};

fn object_line(label: &str, completed: u64, total: u64, bar_width: usize) -> String {
    let pct = if total > 0 {
        completed.min(total) as f64 * 100.0 / total as f64
    } else {
        100.0
    };
    let pct_text = format!("{:>6.2}%", pct);
    let columns = bar_width.max(8);
    let filled = ((pct / 100.0) * columns as f64).floor() as usize;
    format_object_progress_line(
        &ObjectProgress {
            label,
            completed,
            total,
            pct: &pct_text,
        },
        filled,
        bar_width,
    )
}

#[test]
fn object_progress_lines_use_the_shared_bar_format() {
    let line = object_line("Files", 3_466, 10_000, 34);

    assert!(line.starts_with("Files     34.66% ["));
    assert!(line.ends_with(" 3,466 / 10,000"));
    assert_eq!(line.matches('=').count() + line.matches('>').count(), 12);
}

#[test]
fn resized_frames_count_reflowed_rows() {
    assert_eq!(visual_rows_for_frame("0123456789\nabc", 10), 2);
    assert_eq!(visual_rows_for_frame("0123456789\nabc", 5), 3);
}

#[test]
fn an_empty_line_takes_a_row() {
    assert_eq!(visual_rows_for_frame("", 10), 1);
    assert_eq!(visual_rows_for_frame("\n\n", 10), 3);
    assert_eq!(visual_rows_for_frame("abc", 0), 3);
}

#[test]
fn durations_are_written_in_full() {
    assert_eq!(fmt_hms_ms(0), "00:00:00.000");
    assert_eq!(fmt_hms_ms(3_723_045), "01:02:03.045");
    assert_eq!(fmt_hms_ms(360_000_000), "100:00:00.000");
    assert_eq!(fmt_hms_tenths(37_237), "01:02:03.7");
}

#[test]
fn a_bar_has_its_width() {
    assert_eq!(build_progress_bar(None, 10), "          ");
    assert_eq!(build_progress_bar(Some(0), 10), ">         ");
    assert_eq!(build_progress_bar(Some(3), 10), "===>      ");
    assert_eq!(build_progress_bar(Some(10), 10), "==========");
    assert_eq!(build_progress_bar(Some(2), 3), "==>     ");
}

#[test]
fn long_lines_are_cut() {
    let line = "x".repeat(50);
    assert_eq!(clamp_line_for_columns(line.clone(), 10).len(), 40);
    assert_eq!(clamp_line_for_columns(line.clone(), 45).len(), 44);
    assert_eq!(clamp_line_for_columns(line.clone(), 80), line);
}

fn row(bytes: &str, rate: &str) -> RateRow {
    RateRow {
        bytes: bytes.to_string(),
        rate: rate.to_string(),
    }
}

fn texts() -> ProgressTexts {
    ProgressTexts {
        phase_label: "Copy".to_string(),
        pct: " 50.00%".to_string(),
        done: "1.000 KiB".to_string(),
        planned: "2.000 KiB".to_string(),
        eta: "00:00:01.0".to_string(),
        eta_debug: String::new(),
        complete: false,
        transfer: row("1.000 KiB", "1.000 KiB/s"),
        write_disk: row("--", "--/s"),
        write_complete: row("--", "--/s"),
        read_cache: row("--", "--/s"),
        read_disk: row("--", "--/s"),
        read_complete: row("--", "--/s"),
        flushing: true,
    }
}

#[test]
fn frames_hold_bars_and_rates() {
    let t = texts();
    let files = Some(ObjectProgress {
        label: "Files",
        completed: 9,
        total: 4,
        pct: "100.00%",
    });
    let width = fit_bar_width(&t, &files, 200);
    assert_eq!(width, 34);
    let lines = progress_lines(
        &t,
        &files,
        BarFill {
            transfer: Some(17),
            files: 34,
        },
        width,
        200,
    );
    assert_eq!(lines.len(), 9);
    assert_eq!(
        lines[0],
        "Copy      50.00% [=================>                ] 1.000 KiB / 2.000 KiB  00:00:01.0 eta"
    );
    assert_eq!(
        lines[1],
        "Files    100.00% [==================================] 4 / 4"
    );
    assert_eq!(lines[2], "");
    assert_eq!(lines[3], "Copy             1.000 KiB      1.000 KiB/s");
    assert_eq!(lines[5], "WriteComplete           --             --/s flushing");
    assert_eq!(fit_bar_width(&t, &None, 60), 8);
    assert_eq!(fit_bar_width(&t, &None, 80), 22);
}

#[test]
fn frames_are_redrawn_in_place() {
    let mut state = ProgressRenderState::new();
    let first = vec!["a".to_string(), "b".to_string()];
    assert_eq!(
        state.render(&first, 80, false).as_deref(),
        Some("\x1b[?7l\r\x1b[2Ka\n\r\x1b[2Kb\x1b[?7h")
    );
    assert_eq!(state.render(&first, 80, false), None);
    let second = vec!["c".to_string()];
    assert_eq!(
        state.render(&second, 80, false).as_deref(),
        Some("\x1b[1A\r\x1b[?7l\r\x1b[2Kc\x1b[?7h\x1b[1B\r\x1b[2K\x1b[1A\r")
    );
    assert_eq!(
        state.render(&first, 80, true).as_deref(),
        Some("\x1b[?7l\r\x1b[2Ka\n\r\x1b[2Kb\x1b[?7h\n")
    );
    assert_eq!(state.finish(), None);
}

#[test]
fn a_frame_under_way_is_cleared() {
    let mut state = ProgressRenderState::new();
    state.render(&vec!["a".to_string(), "b".to_string()], 80, false);
    assert_eq!(
        state.finish().as_deref(),
        Some("\x1b[1A\r\r\x1b[2K\x1b[1B\r\r\x1b[2K\n")
    );
}

#[test]
fn durations_are_summed_up() {
    let pace = |ms, speed: &str| Pace {
        ms,
        speed: speed.to_string(),
    };
    let lines = copy_duration_summary(&CopyDurations {
        transfer: pace(1000, "2 B"),
        flush: pace(500, "0 B"),
        cleanup: Some(CleanupDurations {
            cleanup: pace(1, "1 B"),
            flush: pace(2, "3 B"),
        }),
        total_ms: 1503,
    });
    assert_eq!(
        lines,
        [
            "Transfer Duration:        00:00:01.000  (2 B/s)",
            "Transfer Flush Duration:  00:00:00.500  (0 B/s)",
            "Cleanup Duration:         00:00:00.001  (1 B/s)",
            "Cleanup Flush Duration:   00:00:00.002  (3 B/s)",
            "Total Duration:           00:00:01.503",
        ]
    );
    assert_eq!(
        summary_rate_line("Average", "5 B", 10, true),
        "Average:                5 B/s | Duration: 00:00:00.010 (total)"
    );
}
