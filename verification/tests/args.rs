use schemgen::args::parse;

fn argv(items: &[&str]) -> Vec<String> {
    items.iter().map(|s| (*s).to_string()).collect()
}

#[test]
fn parses_command_operands_and_values() {
    let a = parse(&argv(&["convert", "a.glb", "b.glb", "--max-size", "64"])).unwrap();
    assert_eq!(a.command, "convert");
    assert_eq!(a.positional, vec!["a.glb".to_string(), "b.glb".to_string()]);
    assert_eq!(a.get("max-size"), Some("64"));
}

#[test]
fn accepts_inline_values_and_short_clusters() {
    let a = parse(&argv(&[
        "convert",
        "m.glb",
        "--max-size=96",
        "-qj",
        "-o",
        "out.litematic",
    ]))
    .unwrap();
    assert_eq!(a.get("max-size"), Some("96"));
    assert!(a.has("quiet") && a.has("json"));
    assert_eq!(a.get("output"), Some("out.litematic"));
}

#[test]
fn rejects_typos_instead_of_ignoring_them() {
    assert!(parse(&argv(&["convert", "--max-sixe", "64"])).is_err());
    assert!(parse(&argv(&["convert", "--max-size"])).is_err());
    assert!(parse(&argv(&["convert", "--no-dither=1"])).is_err());
    assert!(parse(&argv(&["convert", "-Z"])).is_err());
}

#[test]
fn double_dash_stops_option_parsing() {
    let a = parse(&argv(&["convert", "--", "--weird-name.glb"])).unwrap();
    assert_eq!(a.positional, vec!["--weird-name.glb".to_string()]);
}

#[test]
fn usage_errors_name_the_option() {
    assert_eq!(parse(&argv(&["--max-sixe"])).unwrap_err(), "unknown option --max-sixe");
    assert_eq!(parse(&argv(&["--out-dir"])).unwrap_err(), "--out-dir needs a value");
    assert_eq!(parse(&argv(&["--json=yes"])).unwrap_err(), "--json does not take a value");
    assert_eq!(parse(&argv(&["-qZ"])).unwrap_err(), "unknown option -Z");
    assert_eq!(parse(&argv(&["-o"])).unwrap_err(), "-o needs a value");
}

#[test]
fn short_values_can_be_attached() {
    let a = parse(&argv(&["convert", "-tx1.20.4", "-qo", "f.nbt"])).unwrap();
    assert_eq!(a.get("target"), Some("x1.20.4"));
    assert_eq!(a.get("output"), Some("f.nbt"));
    assert!(a.has("quiet"));
}

#[test]
fn later_values_replace_earlier_ones() {
    let a = parse(&argv(&["--name", "a", "--name=b", "-q", "--quiet"])).unwrap();
    assert_eq!(a.get("name"), Some("b"));
    assert_eq!(a.opts.len(), 1);
    assert_eq!(a.flags, vec!["quiet".to_string()]);
    assert_eq!(a.command, "");
}

#[test]
fn a_lone_dash_is_an_operand() {
    let a = parse(&argv(&["convert", "-"])).unwrap();
    assert_eq!(a.positional, vec!["-".to_string()]);
}

#[test]
fn numbers_default_and_complain() {
    let a = parse(&argv(&["--max-size", " 64 ", "--threads", "x", "--port", "-1"])).unwrap();
    assert_eq!(a.number("max-size", 128), Ok(64));
    assert_eq!(a.number("job-ttl", 24), Ok(24));
    assert_eq!(a.number("threads", 1), Err("--threads: 'x' is not a number".to_string()));
    assert!(a.number("port", 3001).is_err());
}

#[test]
fn counts_are_read_as_usize() {
    let argv: Vec<String> = ["serve", "--max-jobs", " 4294967296 ", "--threads=-1"]
        .iter()
        .map(|s| s.to_string())
        .collect();
    let a = parse(&argv).unwrap();
    assert_eq!(a.number_usize("max-jobs", 1), Ok(4_294_967_296));
    assert_eq!(a.number_usize("threads", 1), Err("--threads: '-1' is not a number".to_string()));
    assert_eq!(a.number_usize("absent", 7), Ok(7));
    assert!(a.number("max-jobs", 1).is_err());
}
