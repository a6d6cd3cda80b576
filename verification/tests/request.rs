use schemgen::request::{
    ignored_keys, is_gltf, is_v1_form, json_output_dir, json_threads, preview_size, text_field_fits,
    too_large, upload_extension, v1_default_block, v1_flag, v1_folder, v1_number, v1_threads,
    FolderField, Form, ThreadsField, DEFAULT_THREADS,
};

fn form(fields: &[(&str, &str)]) -> Form {
    let mut f = Form::new();
    for (k, v) in fields {
        f.insert_field(k.to_string(), v.to_string());
    }
    f
}

#[test]
fn unknown_json_keys_are_reported_not_fatal() {
    let keys: Vec<String> = ["zz", "max_size", "max_sise"].iter().map(|s| s.to_string()).collect();
    assert_eq!(ignored_keys(&keys, &["max_size", "dither"]), ["max_sise", "zz"]);
}

#[test]
fn threads_default_and_clamp() {
    assert_eq!(json_threads(ThreadsField::Absent).unwrap(), DEFAULT_THREADS);
    assert_eq!(json_threads(ThreadsField::Count(2)).unwrap(), 2);
    assert_eq!(json_threads(ThreadsField::Count(0)).unwrap(), 1);
    assert_eq!(json_threads(ThreadsField::Count(1000)).unwrap(), 64);
    assert_eq!(
        json_threads(ThreadsField::Invalid).unwrap_err(),
        "settings.threads must be a positive integer"
    );
    assert_eq!(v1_threads(Some("3")), 3);
    assert_eq!(v1_threads(Some("0")), 1);
    assert_eq!(v1_threads(Some("999")), 64);
    assert_eq!(v1_threads(Some("lots")), 1);
    assert_eq!(v1_threads(Some("99999999999999999999999")), 1);
    assert_eq!(v1_threads(None), 1);
}

#[test]
fn output_dir_must_be_a_string() {
    assert_eq!(json_output_dir(FolderField::Absent).unwrap(), None);
    assert_eq!(json_output_dir(FolderField::Text("  ".into())).unwrap(), None);
    assert_eq!(json_output_dir(FolderField::Text("/out".into())).unwrap(), Some("/out".into()));
    assert_eq!(
        json_output_dir(FolderField::Invalid).unwrap_err(),
        "settings.output_dir must be a string"
    );
}

#[test]
fn v1_fields_parse_leniently() {
    let f = form(&[
        ("max_size", "96"),
        ("voxel_size", ""),
        ("dither", "false"),
        ("no_color_block", "netherrack"),
        ("threads", "3"),
    ]);
    assert_eq!(v1_number(f.text("max_size"), 128), 96);
    assert_eq!(f.text("voxel_size"), None);
    assert!(!v1_flag(f.text("dither"), true));
    assert!(v1_flag(f.text("color_sampling"), true));
    assert_eq!(v1_default_block(f.text("no_color_block")), "minecraft:netherrack");
    assert_eq!(v1_threads(f.text("threads")), 3);
    assert_eq!(v1_number(Some("not a number"), 128), 128);
    assert!(v1_flag(Some("TRUE"), false));
    assert_eq!(v1_default_block(Some("stone")), "minecraft:white_concrete");
}

#[test]
fn v1_auto_save_needs_a_folder_and_no_explicit_off() {
    assert_eq!(v1_folder(Some("/out"), None), Some("/out"));
    assert_eq!(v1_folder(Some("/out"), Some("True")), Some("/out"));
    assert_eq!(v1_folder(Some("/out"), Some("false")), None);
    assert_eq!(v1_folder(None, Some("true")), None);
}

#[test]
fn form_fields_are_trimmed_and_the_last_one_wins() {
    let f = form(&[("name", "  castle "), ("name", " tower "), ("blank", "   ")]);
    assert_eq!(f.fields.len(), 2);
    assert_eq!(f.text("name"), Some("tower"));
    assert_eq!(f.text("blank"), None);
    assert!(f.has_field("blank"));
    assert_eq!(f.text("missing"), None);
}

#[test]
fn v1_forms_have_max_size_and_no_settings() {
    assert!(is_v1_form(&form(&[("max_size", "64")])));
    assert!(!is_v1_form(&form(&[("max_size", "64"), ("settings", "{}")])));
    assert!(!is_v1_form(&form(&[])));
}

#[test]
fn uploads_are_gltf_by_name() {
    assert!(is_gltf("Model.GLB"));
    assert!(is_gltf("scene.gltf"));
    assert!(!is_gltf("model.obj"));
    assert_eq!(upload_extension("Scene.GLTF"), "gltf");
    assert_eq!(upload_extension("model.glb"), "glb");
    assert_eq!(too_large("model.glb", 1 << 30), "model.glb is larger than the 1024 MB limit");
    assert!(text_field_fits(0, 1 << 20));
    assert!(!text_field_fits(1, 1 << 20));
}

#[test]
fn previews_are_capped_unless_a_voxel_size_decides() {
    assert_eq!(preview_size(512, false), (256, true));
    assert_eq!(preview_size(512, true), (512, false));
    assert_eq!(preview_size(128, false), (128, false));
}
