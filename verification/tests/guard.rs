use schemgen::guard::{
    carries_token, constant_time_eq, guard_verdict, host_name, is_allowed, origin_host, Verdict,
};

#[test]
fn host_names_drop_the_port() {
    assert_eq!(host_name("localhost:3001"), "localhost");
    assert_eq!(host_name("127.0.0.1"), "127.0.0.1");
    assert_eq!(host_name("[::1]:3001"), "[::1]");
    assert_eq!(host_name("evil.example"), "evil.example");
}

#[test]
fn origins_parse_to_hosts() {
    assert_eq!(origin_host("http://localhost:5173"), Some("localhost"));
    assert_eq!(origin_host("https://evil.example"), Some("evil.example"));
    assert_eq!(origin_host("null"), None);
}

#[test]
fn only_loopback_and_listed_hosts_pass() {
    assert!(is_allowed("LOCALHOST", &[]));
    assert!(is_allowed("[::1]", &[]));
    assert!(!is_allowed("rebind.attacker.example", &[]));
    assert!(is_allowed("my-pc.lan", &["my-pc.lan".to_string()]));
}

#[test]
fn token_comparison() {
    assert!(constant_time_eq("abc", "abc"));
    assert!(!constant_time_eq("abc", "abd"));
    assert!(!constant_time_eq("abc", "abcd"));
}

#[test]
fn origins_keep_paths_and_brackets_apart() {
    assert_eq!(origin_host(" http://[::1]:8080/x "), Some("[::1]"));
    assert_eq!(origin_host("http://a.example/b:c"), Some("a.example"));
    assert_eq!(host_name("[::1"), "[::1");
}

fn status(host: &str, origin: Option<&str>) -> u16 {
    match guard_verdict(Some(host), origin, "/api/health", None, None, None, &[]) {
        Verdict::Pass => 200,
        Verdict::Reject(s, _) => s,
    }
}

#[test]
fn foreign_hosts_and_origins_are_refused() {
    assert_eq!(status("localhost:3001", None), 200);
    assert_eq!(status("127.0.0.1:3001", Some("http://localhost:5173")), 200);
    assert_eq!(status("rebind.example:3001", None), 421);
    assert_eq!(status("localhost:3001", Some("https://evil.example")), 403);
    assert_eq!(status("localhost:3001", Some("null")), 403);
}

fn with_token(path: &str, authorization: Option<&str>, query: Option<&str>) -> Verdict {
    guard_verdict(Some("localhost"), None, path, authorization, query, Some("s3cret"), &[])
}

#[test]
fn token_is_required_everywhere_but_health() {
    assert_eq!(with_token("/api/health", None, None), Verdict::Pass);
    assert_eq!(
        with_token("/api/schema", None, None),
        Verdict::Reject(401, "Missing or wrong token — send Authorization: Bearer <token>")
    );
    assert_eq!(with_token("/api/schema", Some("Bearer s3cret"), None), Verdict::Pass);
    assert!(matches!(with_token("/api/schema", Some("Bearer nope"), None), Verdict::Reject(401, _)));
    assert_eq!(with_token("/api/jobs", None, Some("s3cret")), Verdict::Pass);
    assert_eq!(with_token("/index.html", None, None), Verdict::Pass);
}

#[test]
fn bearer_tokens_are_trimmed_and_case_matters() {
    assert!(carries_token(Some("Bearer  s3cret "), None, "s3cret"));
    assert!(!carries_token(Some("bearer s3cret"), None, "s3cret"));
    assert!(!carries_token(None, None, "s3cret"));
    assert!(carries_token(Some("Basic x"), Some("s3cret"), "s3cret"));
}
