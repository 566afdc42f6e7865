use carsync::remote::{
    parse_remote_endpoint, remote_join_path, remote_relative_path, scp_target, shell_command,
    shell_quote,
};

#[test]
fn endpoint_with_user_host_and_path_is_remote() {
    let e = parse_remote_endpoint("cat@tower:/srv/backup").unwrap();
    assert_eq!(e.host, "cat@tower");
    assert_eq!(e.path, "/srv/backup");
}

#[test]
fn endpoint_splits_at_the_first_colon() {
    let e = parse_remote_endpoint("cat@tower:dir:with:colons").unwrap();
    assert_eq!(e.host, "cat@tower");
    assert_eq!(e.path, "dir:with:colons");
}

#[test]
fn local_paths_are_not_endpoints() {
    assert!(parse_remote_endpoint("/home/cat/photos").is_none());
    assert!(parse_remote_endpoint("relative/dir").is_none());
    assert!(parse_remote_endpoint("").is_none());
}

#[test]
fn endpoint_needs_at_sign_and_no_slash_in_host() {
    assert!(parse_remote_endpoint("tower:/srv").is_none());
    assert!(parse_remote_endpoint("./cat@tower:/srv").is_none());
    assert!(parse_remote_endpoint("a/b@c:d").is_none());
}

#[test]
fn endpoint_needs_both_parts() {
    assert!(parse_remote_endpoint(":path").is_none());
    assert!(parse_remote_endpoint("cat@tower:").is_none());
}

#[test]
fn shell_quote_wraps_in_single_quotes() {
    assert_eq!(shell_quote("plain"), "'plain'");
    assert_eq!(shell_quote(""), "''");
    assert_eq!(shell_quote("with space"), "'with space'");
    assert_eq!(shell_quote("$HOME `x`"), "'$HOME `x`'");
}

#[test]
fn shell_quote_escapes_single_quotes() {
    assert_eq!(shell_quote("it's"), "'it'\"'\"'s'");
    assert_eq!(shell_quote("'"), "''\"'\"''");
}

#[test]
fn shell_quote_matches_replace_form() {
    for s in ["a'b'c", "héllo wörld", "x\ny", "\"quoted\""] {
        assert_eq!(shell_quote(s), format!("'{}'", s.replace('\'', "'\"'\"'")));
    }
}

#[test]
fn join_adds_one_separator() {
    assert_eq!(remote_join_path("/srv/backup", "a/b.txt"), "/srv/backup/a/b.txt");
    assert_eq!(remote_join_path("/srv/backup/", "a/b.txt"), "/srv/backup/a/b.txt");
    assert_eq!(remote_join_path("", "a.txt"), "/a.txt");
}

#[test]
fn join_with_empty_relative_is_base() {
    assert_eq!(remote_join_path("/srv/backup", ""), "/srv/backup");
    assert_eq!(remote_join_path("/srv/backup/", ""), "/srv/backup/");
}

#[test]
fn join_turns_backslashes_into_slashes() {
    assert_eq!(remote_join_path("base", "a\\b\\c.txt"), "base/a/b/c.txt");
}

#[test]
fn relative_path_strips_base_and_slashes() {
    assert_eq!(
        remote_relative_path("/srv/backup", "/srv/backup/a/b.txt").as_deref(),
        Some("a/b.txt")
    );
    assert_eq!(
        remote_relative_path("/srv/backup/", "/srv/backup/a.txt").as_deref(),
        Some("a.txt")
    );
    assert_eq!(
        remote_relative_path("/srv", "/srv///x").as_deref(),
        Some("x")
    );
    assert_eq!(remote_relative_path("/srv", "/srv").as_deref(), Some(""));
}

#[test]
fn relative_path_outside_base_is_none() {
    assert!(remote_relative_path("/srv/backup", "/tmp/a.txt").is_none());
    assert!(remote_relative_path("/srv/backup", "/srv").is_none());
}

#[test]
fn relative_path_is_a_plain_prefix_match() {
    assert_eq!(
        remote_relative_path("/srv/back", "/srv/backup/a").as_deref(),
        Some("up/a")
    );
}

#[test]
fn joined_path_reads_back_relative() {
    let joined = remote_join_path("/srv/backup", "dir/file.txt");
    assert_eq!(
        remote_relative_path("/srv/backup", &joined).as_deref(),
        Some("dir/file.txt")
    );
}

#[test]
fn shell_command_quotes_the_path() {
    assert_eq!(shell_command("test -f", "/srv/a b"), "test -f '/srv/a b'");
    assert_eq!(shell_command("stat -c '%s %Y'", "x"), "stat -c '%s %Y' 'x'");
    assert_eq!(shell_command("mkdir -p", "it's"), "mkdir -p 'it'\"'\"'s'");
}

#[test]
fn scp_target_joins_host_and_quoted_path() {
    assert_eq!(scp_target("cat@tower", "/srv/a b.txt"), "cat@tower:'/srv/a b.txt'");
}
