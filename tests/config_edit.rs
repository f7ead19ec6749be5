use sshct::editor::{add_ssh_config, update_ssh_config};
use sshct::parser::{find_config_by_host, parse_ssh_config};
use sshct::record::SshConfig;

fn record(host: &str, hostname: Option<&str>, user: Option<&str>) -> SshConfig {
    let mut c = SshConfig::new(host.to_string());
    c.hostname = hostname.map(|s| s.to_string());
    c.user = user.map(|s| s.to_string());
    c
}

#[test]
fn append_to_empty_file() {
    let c = record("db1", Some("10.0.0.5"), Some("root"));
    assert_eq!(add_ssh_config("", &c), "Host db1\n  HostName 10.0.0.5\n  User root\n");
}

#[test]
fn append_separates_with_one_blank_line() {
    let c = record("b", Some("h"), None);
    assert_eq!(add_ssh_config("Host a\n", &c), "Host a\n\nHost b\n  HostName h\n");
    assert_eq!(add_ssh_config("Host a", &c), "Host a\n\nHost b\n  HostName h\n");
    assert_eq!(add_ssh_config("Host a\n\n", &c), "Host a\n\nHost b\n  HostName h\n");
}

#[test]
fn fresh_block_has_fixed_order() {
    let mut c = SshConfig::new("x".to_string());
    c.password = Some("pw".to_string());
    c.proxy_command = Some("nc %h %p".to_string());
    c.identity_file = Some("~/.ssh/id".to_string());
    c.port = Some("2222".to_string());
    c.user = Some("me".to_string());
    c.hostname = Some("x.example".to_string());
    assert_eq!(
        c.to_config_string(),
        "Host x\n  HostName x.example\n  User me\n  Port 2222\n  IdentityFile ~/.ssh/id\n  ProxyCommand nc %h %p\n  #pass pw\n"
    );
}

#[test]
fn empty_value_is_not_written() {
    let c = record("x", Some(""), Some("u"));
    assert_eq!(c.to_config_string(), "Host x\n  User u\n");
}

#[test]
fn round_trip_after_append() {
    let mut c = record("db1", Some("10.0.0.5"), Some("root"));
    c.port = Some("22".to_string());
    c.password = Some("s3cret".to_string());
    let text = add_ssh_config("Host other\n  User o\n", &c);
    let parsed = parse_ssh_config(&text);
    assert_eq!(parsed.len(), 2);
    let p = &parsed[1];
    assert_eq!(p.host, "db1");
    assert_eq!(p.hostname.as_deref(), Some("10.0.0.5"));
    assert_eq!(p.user.as_deref(), Some("root"));
    assert_eq!(p.port.as_deref(), Some("22"));
    assert_eq!(p.identity_file, None);
    assert_eq!(p.proxy_command, None);
    assert_eq!(p.password.as_deref(), Some("s3cret"));
}

#[test]
fn update_keeps_comment() {
    let content = "Host db1\n  HostName 10.0.0.5\n  # managed by hand\n";
    let c = record("db1", Some("10.0.0.9"), None);
    let (out, found) = update_ssh_config(content, "db1", &c);
    assert!(found);
    assert_eq!(out, "Host db1\n  HostName 10.0.0.9\n  # managed by hand\n");
}

#[test]
fn update_leaves_other_block() {
    let content = "Host web1\n  HostName w1\n  User a\n\nHost web2\n  HostName w2\n  User b\n";
    let c = record("web1", Some("w1"), Some("c"));
    let (out, found) = update_ssh_config(content, "web1", &c);
    assert!(found);
    assert_eq!(out, "Host web1\n  HostName w1\n  User c\n\nHost web2\n  HostName w2\n  User b\n");
    assert!(out.ends_with("Host web2\n  HostName w2\n  User b\n"));
}

#[test]
fn update_missing_host_is_not_found() {
    let content = "Host a\n  User x";
    let c = record("b", Some("h"), None);
    let (out, found) = update_ssh_config(content, "b", &c);
    assert!(!found);
    assert_eq!(out, content);
}

#[test]
fn update_drops_second_occurrence() {
    let content = "Host api1\n  HostName old1\n  HostName old2\n";
    let c = record("api1", Some("new"), None);
    let (out, _) = update_ssh_config(content, "api1", &c);
    assert_eq!(out, "Host api1\n  HostName new\n");
}

#[test]
fn update_deletes_absent_field() {
    let content = "Host a\n  HostName h\n  User u\n  Port 22\n";
    let c = record("a", Some("h"), None);
    let (out, _) = update_ssh_config(content, "a", &c);
    assert_eq!(out, "Host a\n  HostName h\n");
}

#[test]
fn update_appends_new_field_at_block_end() {
    let content = "Host a\n  HostName h\n  Foo bar\nHost b\n  User z\n";
    let mut c = record("a", Some("h2"), Some("u"));
    c.password = Some("p".to_string());
    let (out, _) = update_ssh_config(content, "a", &c);
    assert_eq!(out, "Host a\n  HostName h2\n  Foo bar\n  User u\n  #pass p\nHost b\n  User z\n");
}

#[test]
fn update_matches_keywords_in_any_case() {
    let content = "host a\n\tHOSTNAME h\n  user u\n";
    let c = record("a", Some("n"), Some("v"));
    let (out, found) = update_ssh_config(content, "a", &c);
    assert!(found);
    assert_eq!(out, "host a\n  HostName n\n  User v\n");
}

#[test]
fn update_host_compare_is_case_sensitive() {
    let content = "Host Alpha\n  User u\n";
    let c = record("alpha", None, Some("v"));
    let (out, found) = update_ssh_config(content, "alpha", &c);
    assert!(!found);
    assert_eq!(out, content);
}

#[test]
fn update_twice_is_update_once() {
    let content = "# top\nHost a\n  HostName h\n  User u\n  User w\n  Extra 1\nHost b\n  Port 1\n";
    let mut c = record("a", Some("h2"), None);
    c.port = Some("2200".to_string());
    let (once, _) = update_ssh_config(content, "a", &c);
    let (twice, _) = update_ssh_config(&once, "a", &c);
    assert_eq!(once, twice);
    assert_eq!(once, "# top\nHost a\n  HostName h2\n  Extra 1\n  Port 2200\nHost b\n  Port 1\n");
}

#[test]
fn host_keyword_in_any_case() {
    for text in ["host myserver\n", "HOST myserver\n", "Host myserver\n"] {
        let parsed = parse_ssh_config(text);
        assert_eq!(parsed.len(), 1);
        assert_eq!(parsed[0].host, "myserver");
    }
}

#[test]
fn parse_empty_and_preamble() {
    assert!(parse_ssh_config("").is_empty());
    assert!(parse_ssh_config("  User nobody\n# c\n").is_empty());
}

#[test]
fn parse_trims_and_reads_all_fields() {
    let text = "Host  a  \r\n  hostname   h1  \n  USER u\n\tPort 22\n  IdentityFile ~/k\n  ProxyCommand nc x\n  #PASS pw\n  Other 1\nHost b\nHostName hb\n";
    let parsed = parse_ssh_config(text);
    assert_eq!(parsed.len(), 2);
    assert_eq!(parsed[0].host, "a");
    assert_eq!(parsed[0].hostname.as_deref(), Some("h1"));
    assert_eq!(parsed[0].user.as_deref(), Some("u"));
    assert_eq!(parsed[0].port.as_deref(), Some("22"));
    assert_eq!(parsed[0].identity_file.as_deref(), Some("~/k"));
    assert_eq!(parsed[0].proxy_command.as_deref(), Some("nc x"));
    assert_eq!(parsed[0].password.as_deref(), Some("pw"));
    assert_eq!(parsed[1].host, "b");
    assert_eq!(parsed[1].hostname.as_deref(), Some("hb"));
}

#[test]
fn parse_needs_whitespace_after_keyword() {
    let parsed = parse_ssh_config("Host a\n  HostNamex y\n  User\n  Port \n  Hostname\tz\n");
    assert_eq!(parsed.len(), 1);
    assert_eq!(parsed[0].hostname.as_deref(), Some("z"));
    assert_eq!(parsed[0].user, None);
    assert_eq!(parsed[0].port, None);
}

#[test]
fn parse_later_value_wins() {
    let parsed = parse_ssh_config("Host a\n  User one\n  User two\n");
    assert_eq!(parsed[0].user.as_deref(), Some("two"));
}

#[test]
fn parse_header_with_only_spaces() {
    let parsed = parse_ssh_config("Host   \n  User u\nHost\n");
    assert_eq!(parsed.len(), 1);
    assert_eq!(parsed[0].host, "");
    assert_eq!(parsed[0].user.as_deref(), Some("u"));
}

#[test]
fn find_by_host_takes_first() {
    let text = "Host a\n  User one\nHost b\n  User two\nHost a\n  User three\n";
    let found = find_config_by_host(text, "a").unwrap();
    assert_eq!(found.user.as_deref(), Some("one"));
    let found = find_config_by_host(text, "b").unwrap();
    assert_eq!(found.user.as_deref(), Some("two"));
    assert!(find_config_by_host(text, "c").is_none());
}

#[test]
fn editor_prefix_needs_a_space() {
    let content = "Host a\n  HostName\th\n";
    let c = record("a", Some("n"), None);
    let (out, _) = update_ssh_config(content, "a", &c);
    assert_eq!(out, "Host a\n  HostName\th\n  HostName n\n");
}

#[test]
fn parse_folds_long_s_like_case() {
    let parsed = parse_ssh_config("Ho\u{17f}t a\n  ho\u{17f}tname x\n");
    assert_eq!(parsed.len(), 1);
    assert_eq!(parsed[0].host, "a");
    assert_eq!(parsed[0].hostname.as_deref(), Some("x"));
}

#[test]
fn editor_prefix_is_ascii_case_only() {
    let content = "Host a\n  ho\u{17f}tname x\n";
    let c = record("a", Some("y"), None);
    let (out, found) = update_ssh_config(content, "a", &c);
    assert!(found);
    assert_eq!(out, "Host a\n  ho\u{17f}tname x\n  HostName y\n");
}

#[test]
fn update_reads_crlf_lines() {
    let content = "Host a\r\n  User u\r\n";
    let c = record("a", None, Some("v"));
    let (out, found) = update_ssh_config(content, "a", &c);
    assert!(found);
    assert_eq!(out, "Host a\n  User v\n");
}

#[test]
fn update_every_block_of_a_repeated_host() {
    let content = "Host a\n  User u\nHost b\nHost a\n";
    let c = record("a", None, Some("v"));
    let (out, _) = update_ssh_config(content, "a", &c);
    assert_eq!(out, "Host a\n  User v\nHost b\nHost a\n  User v\n");
}

#[test]
fn update_lines_before_first_block_untouched() {
    let content = "User top\n# header\nHost a\n  User u\n";
    let c = record("a", None, None);
    let (out, _) = update_ssh_config(content, "a", &c);
    assert_eq!(out, "User top\n# header\nHost a\n");
}
