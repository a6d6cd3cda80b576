use schemgen::ui::{choose_ui, content_type, respond, Reply, Ui};

const FILES: &[&str] = &["assets/main-1a2b.js", "index.html", "shader-check.html"];

#[test]
fn content_types_follow_the_extension() {
    assert_eq!(content_type("a/b.CSS"), "text/css; charset=utf-8");
    assert_eq!(content_type("favicon.svg"), "image/svg+xml");
    assert_eq!(content_type("LICENSE"), "application/octet-stream");
}

#[test]
fn serves_the_files_with_their_types_and_caching() {
    assert_eq!(
        respond("GET", "/", FILES),
        Reply::File { index: 1, content_type: "text/html; charset=utf-8", cache_control: "no-cache" }
    );
    assert_eq!(
        respond("GET", "/assets/main-1a2b.js", FILES),
        Reply::File {
            index: 0,
            content_type: "text/javascript; charset=utf-8",
            cache_control: "public, max-age=31536000, immutable",
        }
    );
    assert!(matches!(respond("HEAD", "/shader-check.html", FILES), Reply::File { index: 2, .. }));
}

#[test]
fn anything_else_is_not_found_or_not_allowed() {
    for uri in ["/missing.js", "/assets/", "/../Cargo.toml", "/index.html/x"] {
        assert_eq!(respond("GET", uri, FILES), Reply::NotFound, "{uri}");
    }
    assert_eq!(respond("POST", "/", FILES), Reply::NotAllowed);
}

#[test]
fn the_ui_comes_from_the_environment_then_the_binary_then_disk() {
    assert_eq!(choose_ui(Some("/ui".into()), true, None), Ui::Dir("/ui".into()));
    assert_eq!(choose_ui(Some(String::new()), true, None), Ui::Embedded);
    assert_eq!(choose_ui(None, false, Some("/d".into())), Ui::Dir("/d".into()));
    assert_eq!(choose_ui(None, false, None), Ui::Missing);
}

#[test]
fn more_media_types() {
    assert_eq!(content_type("x.mjs"), "text/javascript; charset=utf-8");
    assert_eq!(content_type("x.map"), "application/json");
    assert_eq!(content_type("x.JPEG"), "image/jpeg");
    assert_eq!(content_type("x.woff2"), "font/woff2");
    assert_eq!(content_type("x.wasm"), "application/wasm");
    assert_eq!(content_type("archive.tar.gz"), "application/octet-stream");
}
