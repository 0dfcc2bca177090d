use fsx_tools::command::{failure_detail, privileged_command, shell_single_quote};
use fsx_tools::domain::{MediaKind, RemoteSpec};
use fsx_tools::remote::{
    enrich_remote_spec, parse_remote_spec, ssh_config_user_for_host_from_text, wildcard_match,
};
use fsx_tools::resolve::{expand_user, make_absolute, names_taken_off, probe_paths, put_back};
use fsx_tools::runtime::transfer_media_kind;

#[test]
fn parse_remote_spec_accepts_user_host_path() {
    let spec = parse_remote_spec("alice@nas:/data/photos").expect("remote spec");
    assert_eq!(spec.user.as_deref(), Some("alice"));
    assert_eq!(spec.host, "nas");
    assert_eq!(spec.path, "/data/photos");
}

#[test]
fn parse_remote_spec_accepts_host_path_without_user() {
    let spec = parse_remote_spec("backup:/srv/archive").expect("remote spec");
    assert_eq!(spec.user, None);
    assert_eq!(spec.host, "backup");
    assert_eq!(spec.path, "/srv/archive");
}

#[test]
fn parse_remote_spec_rejects_local_path_with_colon() {
    assert!(parse_remote_spec("/tmp/a:b").is_none());
    assert!(parse_remote_spec("mtp://phone/path").is_none());
}

#[test]
fn parse_remote_spec_rejects_empty_parts() {
    assert!(parse_remote_spec("host:").is_none());
    assert!(parse_remote_spec(":/path").is_none());
    assert!(parse_remote_spec("@host:/path").is_none());
    assert!(parse_remote_spec("user@:/path").is_none());
    assert!(parse_remote_spec("two words:/path").is_none());
}

#[test]
fn ssh_config_parser_uses_first_matching_user() {
    let cfg = r#"
Host box
  User first
Host box
  User second
"#;
    assert_eq!(
        ssh_config_user_for_host_from_text("box", cfg).as_deref(),
        Some("first")
    );
}

#[test]
fn ssh_config_parser_supports_wildcards_and_negation() {
    let cfg = r#"
Host * !blocked
  User wildcard
Host blocked
  User denied
Host dev-*
  User devuser
"#;
    assert_eq!(
        ssh_config_user_for_host_from_text("prod-1", cfg).as_deref(),
        Some("wildcard")
    );
    assert_eq!(
        ssh_config_user_for_host_from_text("dev-a", cfg).as_deref(),
        Some("wildcard")
    );
    assert_eq!(
        ssh_config_user_for_host_from_text("blocked", cfg).as_deref(),
        Some("denied")
    );
}

#[test]
fn wildcards_match_any_run_and_any_character() {
    assert!(wildcard_match("dev-*", "dev-a"));
    assert!(wildcard_match("*", ""));
    assert!(wildcard_match("b?x", "box"));
    assert!(!wildcard_match("b?x", "bx"));
    assert!(!wildcard_match("dev-*", "prod"));
}

#[test]
fn a_configured_user_fills_in_only_where_none_is_given() {
    let spec = |user: Option<&str>| RemoteSpec {
        user: user.map(str::to_string),
        host: "nas".to_string(),
        path: "/p".to_string(),
    };
    let filled = enrich_remote_spec(spec(None), Some("bob".to_string()));
    assert_eq!(filled.user.as_deref(), Some("bob"));
    let kept = enrich_remote_spec(spec(Some("alice")), Some("bob".to_string()));
    assert_eq!(kept.user.as_deref(), Some("alice"));
}

#[test]
fn privileged_commands_use_sudo_end_of_options() {
    let command = ["true".to_string()];
    let full = privileged_command(&command, true);
    assert_eq!(full, ["sudo", "--", "true"]);
}

#[test]
fn ordinary_commands_are_not_wrapped() {
    let command = ["true".to_string()];
    assert_eq!(privileged_command(&command, false), command);
}

#[test]
fn quoting_survives_quotes() {
    assert_eq!(shell_single_quote("it's"), "'it'\\''s'");
    assert_eq!(shell_single_quote(""), "''");
}

#[test]
fn a_failure_is_told_by_its_error_output_first() {
    assert_eq!(failure_detail(0, "out", "err"), None);
    assert_eq!(failure_detail(1, "out", " err \n").as_deref(), Some("err"));
    assert_eq!(failure_detail(1, " out ", "").as_deref(), Some("out"));
}

#[test]
fn transfer_media_uses_conservative_endpoint_kind() {
    assert_eq!(
        transfer_media_kind(MediaKind::Nvme, MediaKind::Hdd),
        MediaKind::Hdd
    );
    assert_eq!(
        transfer_media_kind(MediaKind::Hdd, MediaKind::Nvme),
        MediaKind::Hdd
    );
    assert_eq!(
        transfer_media_kind(MediaKind::Nvme, MediaKind::Nvme),
        MediaKind::Nvme
    );
    assert_eq!(
        transfer_media_kind(MediaKind::Nvme, MediaKind::Other),
        MediaKind::Other
    );
}

#[test]
fn a_tilde_stands_for_the_home_directory() {
    assert_eq!(expand_user("~/x", Some("/home/a")), "/home/a/x");
    assert_eq!(expand_user("~", Some("/home/a")), "/home/a");
    assert_eq!(expand_user("~b/x", Some("/home/a")), "~b/x");
    assert_eq!(expand_user("~/x", None), "~/x");
}

#[test]
fn a_missing_path_is_looked_for_above() {
    assert_eq!(probe_paths("/a/b"), ["/a/b", "/a", "/"]);
    assert_eq!(probe_paths("a/b"), ["a/b", "a", ""]);
    assert_eq!(probe_paths(""), [".", ""]);
    assert_eq!(make_absolute("x", "/cwd"), "/cwd/x");
    assert_eq!(make_absolute("/x", "/cwd"), "/x");
    assert_eq!(
        put_back("/a", &vec!["c".to_string(), "b".to_string()]),
        "/a/b/c"
    );
}

#[test]
fn names_that_do_not_exist_are_put_back() {
    let path = "/a/b/../c/d";
    let probes = probe_paths(path);
    assert_eq!(probes[2], "/a/b/..");
    assert_eq!(names_taken_off(path, 2), ["d", "c"]);
    assert_eq!(names_taken_off(path, 4), ["d", "c", "b"]);
    assert_eq!(names_taken_off("/a", 9), ["a"]);
    assert!(names_taken_off(path, 0).is_empty());
    assert_eq!(put_back("/real", &names_taken_off(path, 2)), "/real/c/d");
}
