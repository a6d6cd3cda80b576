use schemgen::savedir::Os;
use schemgen::serve::{allowed_hosts, default_work_dir, given_target, given_token, parse_port};

fn env(pairs: &[(&str, &str)]) -> Vec<(String, String)> {
    pairs.iter().map(|(k, v)| (k.to_string(), v.to_string())).collect()
}

#[test]
fn ports_are_numbers_that_fit() {
    assert_eq!(parse_port(" 8080 ").unwrap(), 8080);
    assert_eq!(parse_port("65535").unwrap(), 65535);
    assert_eq!(parse_port("65536").unwrap_err(), "--port: '65536' is not a port number");
    assert_eq!(parse_port("http").unwrap_err(), "--port: 'http' is not a port number");
}

#[test]
fn allowed_hosts_come_from_the_list_and_the_address() {
    assert_eq!(
        allowed_hosts(Some("a.example:3001, ,[::2]:80"), "127.0.0.1"),
        vec!["a.example".to_string(), "[::2]".to_string()]
    );
    assert_eq!(allowed_hosts(None, "192.168.1.5"), vec!["192.168.1.5".to_string()]);
    assert!(allowed_hosts(None, "0.0.0.0").is_empty());
}

#[test]
fn tokens_and_targets_skip_blanks() {
    assert_eq!(given_token(Some("  s3 "), Some("env")), Some("s3".to_string()));
    assert_eq!(given_token(Some("  "), Some(" env ")), Some("env".to_string()));
    assert_eq!(given_token(None, None), None);
    assert_eq!(given_target(Some("1.20.4"), Some("3700")), Some("1.20.4"));
    assert_eq!(given_target(Some(" "), Some("3700")), None);
    assert_eq!(given_target(None, Some("3700")), Some("3700"));
}

#[test]
fn the_work_dir_is_in_the_platform_cache() {
    let e = env(&[("HOME", "/home/ann"), ("XDG_CACHE_HOME", "")]);
    assert_eq!(default_work_dir(&e, Os::Other, "/tmp"), "/home/ann/.cache/schemgen2");
    let e = env(&[("XDG_CACHE_HOME", "/c/")]);
    assert_eq!(default_work_dir(&e, Os::Other, "/tmp"), "/c/schemgen2");
    assert_eq!(default_work_dir(&[], Os::Other, "/tmp"), "/tmp/schemgen2");
    let e = env(&[("HOME", "/Users/ann")]);
    assert_eq!(default_work_dir(&e, Os::MacOs, "/tmp"), "/Users/ann/Library/Caches/schemgen2");
    let e = env(&[("localappdata", "C:\\Users\\ann\\AppData\\Local")]);
    assert_eq!(
        default_work_dir(&e, Os::Windows, "C:\\Temp"),
        "C:\\Users\\ann\\AppData\\Local\\schemgen2"
    );
}
