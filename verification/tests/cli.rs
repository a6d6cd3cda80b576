use schemgen::args::parse;
use schemgen::cli::{
    block_arg, check_single_input_options, chosen_target, collect_inputs, exceeds_structure_block,
    exit_code, output_path, plan_filenames, targets_table, thread_count,
};
use schemgen::savedir::Os;
use schemgen::targets::Target;

fn exists_on_disk(p: &String) -> bool {
    std::path::Path::new(p).exists()
}

fn strings(v: &[&str]) -> Vec<String> {
    v.iter().map(|s| s.to_string()).collect()
}

#[test]
fn inputs_must_look_like_gltf_and_exist() {
    assert!(collect_inputs(&[], &exists_on_disk).is_err());
    assert!(collect_inputs(&["nope.obj".to_string()], &exists_on_disk).is_err());
    assert!(collect_inputs(&["missing.glb".to_string()], &exists_on_disk).is_err());
}

#[test]
fn inputs_report_the_first_bad_operand() {
    let all = |_: &String| true;
    let none = |_: &String| false;
    assert_eq!(
        collect_inputs(&[], &all).unwrap_err(),
        "convert needs at least one .glb or .gltf file"
    );
    assert_eq!(
        collect_inputs(&strings(&["a.GLB", "b.obj", "c.txt"]), &all).unwrap_err(),
        "not a glTF file: b.obj"
    );
    assert_eq!(
        collect_inputs(&strings(&["a.gltf"]), &none).unwrap_err(),
        "no such file: a.gltf"
    );
    assert_eq!(
        collect_inputs(&strings(&["a.GLB", "b.gltf"]), &all).unwrap(),
        strings(&["a.GLB", "b.gltf"])
    );
}

#[test]
fn output_and_name_take_one_input() {
    let args = parse(&strings(&["convert", "a.glb", "b.glb", "-o", "x.litematic"])).unwrap();
    assert_eq!(
        check_single_input_options(&args, 2).unwrap_err(),
        "--output takes a single input file; use --out-dir for several"
    );
    assert!(check_single_input_options(&args, 1).is_ok());
    let args = parse(&strings(&["convert", "a.glb", "b.glb", "--name", "x"])).unwrap();
    assert_eq!(
        check_single_input_options(&args, 2).unwrap_err(),
        "--name takes a single input file; with several, each keeps its own name"
    );
    let args = parse(&strings(&["convert", "a.glb", "b.glb"])).unwrap();
    assert!(check_single_input_options(&args, 2).is_ok());
}

#[test]
fn outputs_are_named_after_their_inputs() {
    assert_eq!(
        plan_filenames(&strings(&["castle", "castle", "Castle", "a:b"]), None, "litematic"),
        strings(&["castle.litematic", "castle-2.litematic", "Castle-3.litematic", "a_b.litematic"])
    );
    assert_eq!(plan_filenames(&strings(&["x"]), Some("tower"), "schem"), strings(&["tower.schem"]));
}

#[test]
fn threads_are_clamped_to_the_files() {
    assert_eq!(thread_count(0, 5), 1);
    assert_eq!(thread_count(3, 5), 3);
    assert_eq!(thread_count(8, 5), 5);
    assert_eq!(thread_count(8, 0), 1);
}

#[test]
fn any_failure_exits_with_one() {
    assert_eq!(exit_code(&[]), 0);
    assert_eq!(exit_code(&[false, false]), 0);
    assert_eq!(exit_code(&[false, true, false]), 1);
}

fn target_of(items: &[&str]) -> Result<String, String> {
    let args = parse(&strings(items)).unwrap();
    let raw = chosen_target(&args, None)?;
    Target::parse(&raw).map(|t| t.key()).map_err(|e| e.message())
}

#[test]
fn targets_come_from_either_flag() {
    assert_eq!(target_of(&["convert", "m.glb", "-t", "1.20.4"]).unwrap(), "1.20.4");
    assert_eq!(target_of(&["convert", "m.glb", "--data-version", "3700"]).unwrap(), "1.20.4");
    assert_eq!(target_of(&["convert", "m.glb", "--data-version", "4435"]).unwrap(), "4435");
    assert!(target_of(&["convert", "m.glb", "--target", "1.8.9"]).is_err());
    assert!(target_of(&["convert", "m.glb", "-t", "1.20.4", "--data-version", "3700"]).is_err());
}

#[test]
fn the_environment_names_a_target_only_when_no_flag_does() {
    let none = parse(&strings(&["convert", "m.glb"])).unwrap();
    assert_eq!(chosen_target(&none, Some("3700")).unwrap(), "3700");
    assert_eq!(chosen_target(&none, Some("  ")).unwrap(), "1.21.8");
    assert_eq!(chosen_target(&none, None).unwrap(), "1.21.8");
    let dv = parse(&strings(&["convert", "m.glb", "--data-version", "x1"])).unwrap();
    assert_eq!(chosen_target(&dv, None).unwrap_err(), "--data-version: 'x1' is not a number");
}

#[test]
fn blocks_are_checked() {
    let args = parse(&strings(&["convert", "m.glb", "--block", "netherrack"])).unwrap();
    assert_eq!(block_arg(&args).unwrap(), "minecraft:netherrack");
    let args = parse(&strings(&["convert", "m.glb"])).unwrap();
    assert_eq!(block_arg(&args).unwrap(), "minecraft:white_concrete");
    let args = parse(&strings(&["convert", "m.glb", "--block", "bad id"])).unwrap();
    assert_eq!(
        block_arg(&args).unwrap_err(),
        "--block: invalid default_block: \"bad id\" is not a block ID"
    );
}

#[test]
fn outputs_go_where_asked() {
    assert_eq!(output_path(Some("x.nbt"), Some("/o"), "/in", "a.nbt", Os::Other), "x.nbt");
    assert_eq!(output_path(None, Some("/o"), "/in", "a.nbt", Os::Other), "/o/a.nbt");
    assert_eq!(output_path(None, None, "/in", "a.nbt", Os::Other), "/in/a.nbt");
    assert_eq!(output_path(None, None, "", "a.nbt", Os::Other), "a.nbt");
    assert!(exceeds_structure_block([49, 1, 1]));
    assert!(!exceeds_structure_block([48, 48, 48]));
}

#[test]
fn the_targets_table_lists_newest_first() {
    let t = targets_table();
    assert_eq!(t[0], "VERSION    DATA VERSION  LITEMATIC");
    assert_eq!(t[1], "26.3               5023          7");
    assert!(t.iter().any(|l| l == "1.21.8             4440          7  (default)"));
    assert_eq!(t.last().unwrap(), "1.16.5             2586          6");
    assert_eq!(t.len(), 17);
}
