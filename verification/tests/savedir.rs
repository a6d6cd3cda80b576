use schemgen::savedir::{
    check_result, check_step, dedupe_filename, CheckStep, Entry, expand_env, expand_home, file_manager_name, home_dir, resolve,
    instance_roots, instance_schematics_dir, jar_folders, launcher_roots, sanitize_filename,
    suggestions, vanilla_schematics, Os, Suggestion,
};

#[test]
fn sanitizes_and_suffixes() {
    assert_eq!(sanitize_filename("castle", "litematic"), "castle.litematic");
    assert_eq!(sanitize_filename("castle.litematic", "litematic"), "castle.litematic");
    assert_eq!(sanitize_filename("a:b?c", "litematic"), "a_b_c.litematic");
    assert_eq!(sanitize_filename("   ", "litematic"), "schematic.litematic");
    assert_eq!(sanitize_filename("castle", "schem"), "castle.schem");
    assert_eq!(sanitize_filename("CON", "nbt"), "_CON.nbt");
    assert_eq!(sanitize_filename("nul.backup", "schem"), "_nul.backup.schem");
    assert_eq!(sanitize_filename("console", "nbt"), "console.nbt");
}

#[test]
fn cannot_escape_the_chosen_folder() {
    for raw in ["../../evil", "..", "C:/Windows/system32/x", "sub/dir/name"] {
        let out = sanitize_filename(raw, "litematic");
        assert!(!out.chars().any(std::path::is_separator), "{raw} -> {out}");
        assert!(!out.starts_with('.'), "{raw} -> {out}");
        assert!(out.ends_with(".litematic"), "{raw} -> {out}");
    }
}

#[test]
fn dedupes_within_batch() {
    let mut taken = Vec::new();
    assert_eq!(dedupe_filename("a.litematic", &mut taken), "a.litematic");
    assert_eq!(dedupe_filename("a.litematic", &mut taken), "a-2.litematic");
    assert_eq!(dedupe_filename("a.litematic", &mut taken), "a-3.litematic");
    assert_eq!(dedupe_filename("a.schem", &mut taken), "a.schem");
    assert_eq!(dedupe_filename("a.schem", &mut taken), "a-2.schem");
}

#[test]
fn dedupe_ignores_case_and_handles_dotless_names() {
    let mut taken = Vec::new();
    assert_eq!(dedupe_filename("Castle.nbt", &mut taken), "Castle.nbt");
    assert_eq!(dedupe_filename("castle.NBT", &mut taken), "castle-2.NBT");
    assert_eq!(dedupe_filename("readme", &mut taken), "readme");
    assert_eq!(dedupe_filename("readme", &mut taken), "readme-2");
    assert_eq!(dedupe_filename(".hidden", &mut taken), ".hidden");
    assert_eq!(dedupe_filename(".hidden", &mut taken), ".hidden-2");
    assert_eq!(taken, vec!["castle.nbt", "castle-2.nbt", "readme", "readme-2", ".hidden", ".hidden-2"]);
}

#[test]
fn control_characters_and_trailing_dots_go() {
    assert_eq!(sanitize_filename(" a\u{7}b. ", "nbt"), "a_b.nbt");
    assert_eq!(sanitize_filename("...", "nbt"), "schematic.nbt");
    assert_eq!(sanitize_filename("lpt9", "nbt"), "_lpt9.nbt");
}

fn env(pairs: &[(&str, &str)]) -> Vec<(String, String)> {
    pairs.iter().map(|(k, v)| (k.to_string(), v.to_string())).collect()
}

#[test]
fn rejects_relative_paths() {
    assert!(resolve("schematics", &[], Os::Other).is_err());
    assert!(resolve("", &[], Os::Other).is_err());
}

#[test]
fn expands_env_without_looping() {
    let vars = env(&[("SCHEMGEN_TEST_DIR", "X%Y")]);
    assert_eq!(expand_env("a%SCHEMGEN_TEST_DIR%b", &vars, Os::Other), "aX%Yb");
    assert_eq!(expand_env("100% done", &vars, Os::Other), "100% done");
}

#[test]
fn windows_variables_ignore_case() {
    let vars = env(&[("UserProfile", "C:\\Users\\ann")]);
    assert_eq!(expand_env("%USERPROFILE%\\x", &vars, Os::Windows), "C:\\Users\\ann\\x");
    assert_eq!(expand_env("%USERPROFILE%\\x", &vars, Os::Other), "%USERPROFILE%\\x");
    assert_eq!(expand_env("%MISSING%", &vars, Os::Windows), "%MISSING%");
}

#[test]
fn resolve_reports_what_is_wrong() {
    assert_eq!(resolve("  \"\" ", &[], Os::Other).unwrap_err(), "No output folder given");
    assert_eq!(
        resolve("schematics", &[], Os::Other).unwrap_err(),
        "Output folder must be an absolute path (got \"schematics\")"
    );
    let home = env(&[("HOME", "/home/ann")]);
    assert_eq!(resolve("~/schematics", &home, Os::Other).unwrap(), "/home/ann/schematics");
    assert_eq!(resolve(" \"/tmp/out\" ", &[], Os::Other).unwrap(), "/tmp/out");
    assert_eq!(resolve("C:/Users/ann", &[], Os::Windows).unwrap(), "C:\\Users\\ann");
    assert_eq!(resolve("\\\\server\\share", &[], Os::Windows).unwrap(), "\\\\server\\share");
    assert!(resolve("/tmp", &[], Os::Windows).is_err());
    assert_eq!(home_dir(&env(&[("HOME", "")]), Os::Other), None);
    assert_eq!(expand_home("~", Some("/h")), "/h");
    assert_eq!(expand_home("~user", Some("/h")), "~user");
}

#[test]
fn file_managers_are_named_per_platform() {
    assert_eq!(file_manager_name(Os::Windows), "Explorer");
    assert_eq!(file_manager_name(Os::MacOs), "Finder");
    assert_eq!(file_manager_name(Os::Other), "file manager");
}

fn candidate(path: &str, exists: bool) -> Suggestion {
    Suggestion { path: path.to_string(), exists, instance: None }
}

#[test]
fn suggestions_list_each_folder_once_existing_first() {
    let out = suggestions(vec![
        candidate("/a", false),
        candidate("/b", true),
        candidate("/a", true),
        candidate("/c", false),
        candidate("/d", true),
    ]);
    let paths: Vec<(&str, bool)> = out.iter().map(|s| (s.path.as_str(), s.exists)).collect();
    assert_eq!(paths, vec![("/b", true), ("/d", true), ("/a", false), ("/c", false)]);
}

#[test]
fn launcher_folders_follow_the_platform() {
    let r = launcher_roots(&env(&[("HOME", "/home/ann")]), Os::Other);
    assert_eq!(r.minecraft, vec!["/home/ann/.minecraft"]);
    assert_eq!(r.prism, vec!["/home/ann/.local/share/PrismLauncher"]);
    assert_eq!(r.modrinth, vec!["/home/ann/.local/share/ModrinthApp"]);
    assert_eq!(r.curseforge, vec!["/home/ann/curseforge/minecraft"]);
    assert_eq!(r.multimc, vec!["/home/ann/MultiMC"]);
    assert_eq!(r.downloads.as_deref(), Some("/home/ann/Downloads"));

    let w = launcher_roots(
        &env(&[("APPDATA", "C:\\Users\\ann\\AppData\\Roaming"), ("USERPROFILE", "C:\\Users\\ann")]),
        Os::Windows,
    );
    assert_eq!(w.minecraft, vec!["C:\\Users\\ann\\AppData\\Roaming\\.minecraft"]);
    assert_eq!(w.modrinth.len(), 2);
    assert_eq!(w.downloads.as_deref(), Some("C:\\Users\\ann\\Downloads"));

    let m = launcher_roots(&env(&[("HOME", "/Users/ann")]), Os::MacOs);
    assert_eq!(
        m.minecraft,
        vec!["/Users/ann/Library/Application Support/minecraft", "/Users/ann/.minecraft"]
    );
    assert!(launcher_roots(&[], Os::Other).downloads.is_none());
}

#[test]
fn instances_and_jars_are_looked_for_under_each_launcher() {
    let r = launcher_roots(&env(&[("HOME", "/h")]), Os::Other);
    let roots = instance_roots(&r, Os::Other);
    let listed: Vec<(&str, &str, &str)> =
        roots.iter().map(|i| (i.dir.as_str(), i.launcher, i.inner)).collect();
    assert_eq!(
        listed,
        vec![
            ("/h/.local/share/PrismLauncher/instances", "Prism Launcher", ".minecraft"),
            ("/h/.local/share/ModrinthApp/profiles", "Modrinth App", ""),
            ("/h/curseforge/minecraft/Instances", "CurseForge", ""),
            ("/h/MultiMC/instances", "MultiMC", ".minecraft"),
        ]
    );
    assert_eq!(instance_schematics_dir("/i/pack", "", Os::Other), "/i/pack/schematics");
    assert_eq!(instance_schematics_dir("/i/pack", ".minecraft", Os::Other), "/i/pack/.minecraft/schematics");
    assert_eq!(vanilla_schematics(&r, Os::Other), vec!["/h/.minecraft/schematics"]);
    let jars = jar_folders(&r, Os::Other);
    assert_eq!(jars[0], ("/h/.minecraft/versions".to_string(), false));
    assert_eq!(jars[1], ("/h/curseforge/minecraft/Install/versions".to_string(), false));
    assert_eq!(jars[3], ("/h/.local/share/PrismLauncher/libraries/com/mojang/minecraft".to_string(), true));
    assert_eq!(jars.len(), 5);
}

#[test]
fn a_folder_is_checked_by_writing_into_it_or_its_nearest_parent() {
    assert_eq!(
        check_step("/srv/out", Entry::Folder, None),
        CheckStep::Probe { folder: "/srv/out".to_string(), exists: true }
    );
    assert_eq!(
        check_step("/srv/out/new", Entry::Missing, Some(("/srv/out", Entry::Folder))),
        CheckStep::Probe { folder: "/srv/out".to_string(), exists: false }
    );
    assert_eq!(
        check_step("/srv/file.txt/sub", Entry::Missing, Some(("/srv/file.txt", Entry::File))),
        CheckStep::Refuse("\"/srv/file.txt\" is not a folder".to_string())
    );
    assert_eq!(
        check_step("Q:/nowhere", Entry::Missing, None),
        CheckStep::Refuse("\"Q:/nowhere\" is not on a drive that exists".to_string())
    );
    let ok = check_result("/srv/out/new", false, "/srv/out", Ok(())).unwrap();
    assert_eq!((ok.path.as_str(), ok.exists), ("/srv/out/new", false));
    assert_eq!(
        check_result("/srv/ro", true, "/srv/ro", Err("Permission denied".to_string())).unwrap_err(),
        "\"/srv/ro\" is not writable: Permission denied"
    );
}
