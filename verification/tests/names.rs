use fsx_tools::names::{name_bytes, name_text, path_bytes, path_text};
use fsx_tools::paths::{
    file_name, join_path, map_dir_dest_path, map_display_rel, normalize_rel, parent, path_under,
    paths_equal, rel_matches_prefix, relative_to, top_level_rel_component,
};
use fsx_tools::placement::backup_path;
use fsx_tools::text;

fn chars(s: &str) -> Vec<char> {
    text::to_chars(s)
}

fn string(v: Vec<char>) -> String {
    text::from_chars(&v)
}

#[test]
fn text_is_cut_and_joined() {
    assert_eq!(string(text::trim(&chars("\t a b \u{3000}\n"))), "a b");
    assert_eq!(string(text::trim_end(&chars("a//"), '/')), "a");
    let parts: Vec<String> = text::split(&chars("a,,b"), ',').into_iter().map(string).collect();
    assert_eq!(parts, ["a", "", "b"]);
    let words: Vec<String> = text::split_words(&chars("  a b\t")).into_iter().map(string).collect();
    assert_eq!(words, ["a", "b"]);
    let lines: Vec<String> = text::lines(&chars("a\r\nb\n")).into_iter().map(string).collect();
    assert_eq!(lines, ["a", "b"]);
    assert_eq!(text::rfind(&chars("a/b/c"), '/'), Some(3));
    assert_eq!(text::search(&chars("a - b"), &chars(" - ")), Some(1));
    assert_eq!(text::search(&chars("ab"), &chars("c")), None);
    assert_eq!(string(text::to_lower(&chars("AbZ"))), "abz");
    assert!(text::white('\u{a0}') && !text::white('x'));
    assert!(text::digit('7') && !text::digit('x'));
}

#[test]
fn numbers_are_written_and_read_back() {
    for n in [0, 7, 10, 1_000_000, u64::MAX] {
        let digits = text::number(n);
        assert_eq!(text::parse_u64(&digits), Some(n));
    }
    assert_eq!(string(text::number(1207)), "1207");
    assert_eq!(text::parse_u64(&chars("18446744073709551616")), None);
    assert_eq!(text::parse_u64(&chars("+12")), Some(12));
    assert_eq!(text::parse_u64(&chars("")), None);
    assert_eq!(text::parse_u64(&chars("1x")), None);
}

#[test]
fn paths_are_seen_by_their_components() {
    assert!(paths_equal("/a//b/", "/a/./b"));
    assert!(!paths_equal("a", "/a"));
    assert!(path_under("/a/b", "/a") && path_under("/a", "/a"));
    assert!(!path_under("/ab", "/a"));
    assert_eq!(relative_to("/a/b/c", "/a/"), Some("b/c".to_string()));
    assert_eq!(relative_to("/a", "/a"), Some(String::new()));
    assert_eq!(relative_to("/b", "/a"), None);
    assert_eq!(normalize_rel("a//b\\c/"), "a/b\\c");
    assert_eq!(file_name("/a/b/"), Some("b".to_string()));
    assert_eq!(file_name("/"), None);
    assert_eq!(file_name("a/.."), None);
    assert_eq!(parent("/a/b/"), Some("/a".to_string()));
    assert_eq!(parent("a"), Some(String::new()));
    assert_eq!(parent("/"), None);
    assert_eq!(join_path("/a", "b"), "/a/b");
    assert_eq!(join_path("/a/", "b"), "/a/b");
    assert_eq!(join_path("/a", "/b"), "/b");
    assert_eq!(join_path("", "b"), "b");
}

#[test]
fn what_is_below_something_below_a_prefix_is_below_the_prefix() {
    assert!(rel_matches_prefix("a/b/c", "a/b"));
    assert!(rel_matches_prefix("a/b", "a"));
    assert!(rel_matches_prefix("a/b/c", "a"));
    assert!(rel_matches_prefix("a", "a"));
    assert!(!rel_matches_prefix("ab", "a"));
    assert_eq!(top_level_rel_component("./a/b"), Some("a".to_string()));
    assert_eq!(top_level_rel_component("/"), None);
}

#[test]
fn entries_go_below_the_name_of_their_root() {
    assert_eq!(map_dir_dest_path(true, "src", "a/b", "/d"), "/d/src/a/b");
    assert_eq!(map_dir_dest_path(false, "src", "a/b", "/d"), "/d/a/b");
    assert_eq!(map_display_rel(true, "src", "a"), "src/a");
    assert_eq!(map_display_rel(false, "src", "a"), "a");
}

#[test]
fn names_are_written_without_loss() {
    let shown: [(&[u8], &str); 8] = [
        (b"plain.txt", "plain.txt"),
        ("\u{e4}\u{4e2d}".as_bytes(), "\u{e4}\u{4e2d}"),
        (b"file-\xff", "file-%FF"),
        (b"\xc3\xa4\xff", "%C3%A4%FF"),
        (b"100%", "100%"),
        (b"my%20file", "my%20file"),
        (b"file-%FF", "file-%25FF"),
        (b"two\nlines", "two%0Alines"),
    ];
    for (name, text) in shown {
        assert_eq!(name_text(name), text);
        assert_eq!(name_bytes(text), name);
    }
    assert_eq!(name_bytes("%41"), b"%41");
    assert_eq!(name_bytes("%F"), b"%F");
}

#[test]
fn paths_are_written_name_by_name() {
    let path = b"/a%FF/b \xe4//\xc3\xa4/c\n";
    let text = path_text(path);
    assert_eq!(text, "/a%25FF/b %E4//\u{e4}/c%0A");
    assert_eq!(path_bytes(&text), path);
    for other in [&b""[..], b"/", b"a", b"//", b"%25/%", b"\xff/\xff"] {
        assert_eq!(path_bytes(&path_text(other)), other);
        assert!(!path_text(other).contains('\n'));
    }
}

#[test]
fn joining_keeps_every_byte() {
    let base = path_text(b"/d\xff");
    assert_eq!(path_bytes(&join_path(&base, &name_text(b"x\xfe"))), b"/d\xff/x\xfe");
    let mapped = map_dir_dest_path(true, &name_text(b"s\xfd"), &path_text(b"a/b\xfc"), &base);
    assert_eq!(path_bytes(&mapped), b"/d\xff/s\xfd/a/b\xfc");
}

#[test]
fn backups_stand_beside_what_they_keep() {
    assert_eq!(backup_path("/d/old", 0), Some("/d/old.bak".to_string()));
    assert_eq!(backup_path("/d/old", 12), Some("/d/old.bak.12".to_string()));
    assert_eq!(backup_path("/", 0), None);
    for name in [&b"/d/x\xff"[..], b"/d/x%FF", b"/d/x%"] {
        let kept = backup_path(&path_text(name), 0).expect("a name");
        assert_eq!(path_bytes(&kept), [name, b".bak"].concat());
    }
}
