use fsx_tools::rsync::{
    cut_lines, final_bytes, handle_rsync_stream_line, parse_progress2_bytes, read_progress_groups,
    rsync_command, source_share, stream_event, ProgressNumber, RsyncAggregate, RsyncOptions,
    RsyncStreamEvent,
};

fn bytes_of(number: &str, power: u32) -> u64 {
    let value: f64 = number.parse().expect("number");
    (value * 1024f64.powi(power as i32)) as u64
}

#[test]
fn handle_rsync_stream_line_emits_progress_event() {
    match handle_rsync_stream_line("   1,024  10%   1.00MB/s    0:00:00").expect("event") {
        RsyncStreamEvent::Progress(n) => assert_eq!(bytes_of(&n.number, n.power), 1024),
        RsyncStreamEvent::Text(line) => panic!("expected progress, got text: {line}"),
    }
}

#[test]
fn handle_rsync_stream_line_emits_text_event() {
    match handle_rsync_stream_line("building file list ...").expect("event") {
        RsyncStreamEvent::Text(line) => assert_eq!(line, "building file list ..."),
        RsyncStreamEvent::Progress(n) => {
            panic!("expected text, got progress: {}", bytes_of(&n.number, n.power))
        }
    }
}

#[test]
fn units_and_blank_lines_are_understood() {
    match handle_rsync_stream_line("1.50M 3% 1kB/s 0:00:01").expect("event") {
        RsyncStreamEvent::Progress(n) => {
            assert_eq!(n.number, "1.50");
            assert_eq!(n.power, 2);
        }
        RsyncStreamEvent::Text(line) => panic!("{line}"),
    }
    assert!(handle_rsync_stream_line("  \t ").is_none());
}

#[test]
fn pieces_make_no_difference_to_lines() {
    let mut pending = Vec::new();
    let mut lines = cut_lines(&mut pending, b"one\rtw");
    lines.extend(cut_lines(&mut pending, b"o\n\n"));
    assert_eq!(lines, [b"one".to_vec(), b"two".to_vec()]);
    assert!(pending.is_empty());
}

#[test]
fn paths_follow_the_options_of_rsync() {
    let plain = RsyncOptions {
        elevated: false,
        remove_source: false,
        delete_extras: false,
        size_only: false,
    };
    assert_eq!(
        rsync_command("-a", "/b", plain),
        [
            "rsync",
            "-aH",
            "--partial",
            "--protect-args",
            "--info=progress2,stats2,name0",
            "--",
            "-a",
            "/b",
        ]
    );
    let all = RsyncOptions {
        elevated: true,
        remove_source: true,
        delete_extras: true,
        size_only: true,
    };
    let words = rsync_command("/a", "/b", all);
    assert_eq!(words[0], "pkexec");
    assert_eq!(
        words[5..9],
        ["--size-only", "--delete", "--remove-source-files", "--info=progress2,stats2,name0"]
    );
}

#[test]
fn progress_groups_are_read() {
    let text = |s: &str| Some(s.to_string());
    let groups = Some(vec![text("1,5G 3%"), text("1,5"), text("G")]);
    let number = read_progress_groups(&groups).unwrap();
    assert_eq!((number.number.as_str(), number.power), ("15", 3));
    let bare = read_progress_groups(&Some(vec![None, text("7"), None])).unwrap();
    assert_eq!((bare.number.as_str(), bare.power), ("7", 0));
    assert!(read_progress_groups(&Some(vec![text("7"), None])).is_none());
    assert!(read_progress_groups(&None).is_none());
    let read = parse_progress2_bytes(" 12,345k  99% 1.0MB/s 0:00:01").unwrap();
    assert_eq!((read.number.as_str(), read.power), ("12345", 1));
    assert!(parse_progress2_bytes("sent 12 bytes").is_none());
}

#[test]
fn a_line_is_a_number_or_a_text() {
    let number = ProgressNumber { number: "5".to_string(), power: 0 };
    match stream_event("x".to_string(), Some(number)) {
        Some(RsyncStreamEvent::Progress(n)) => assert_eq!(n.number, "5"),
        other => panic!("{:?}", other),
    }
    match stream_event("a".to_string(), None) {
        Some(RsyncStreamEvent::Text(line)) => assert_eq!(line, "a"),
        other => panic!("{:?}", other),
    }
    assert!(stream_event(String::new(), None).is_none());
}

#[test]
fn many_transfers_share_a_plan() {
    assert_eq!(final_bytes(10, 4, 0), 10);
    assert_eq!(final_bytes(10, 4, 1), 4);
    assert_eq!(final_bytes(3, 4, 0), 4);
    let mut sum = RsyncAggregate { status: 0, bytes_done: 0 };
    assert_eq!(source_share(0, 1, 10, sum, true), (10, true));
    assert_eq!(source_share(0, 2, 10, sum, true), (0, false));
    assert!(sum.absorb(0, 4));
    assert_eq!(source_share(1, 2, 10, sum, true), (6, true));
    assert!(!sum.absorb(23, 1));
    assert_eq!(sum, RsyncAggregate { status: 23, bytes_done: 5 });
}
