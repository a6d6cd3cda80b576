use std::collections::BTreeSet;

use schemgen::schema::{choice_list, fields, schema, Choices, DefaultValue, Kind, Scope};

#[test]
fn fields_are_well_formed() {
    let s = schema();
    let group_keys: BTreeSet<&str> = s.groups.iter().map(|g| g.key).collect();
    let mut seen = BTreeSet::new();
    for f in &s.fields {
        assert!(seen.insert(f.key), "duplicate field {}", f.key);
        assert!(group_keys.contains(f.group), "{} has unknown group", f.key);
        assert!(!f.label.is_empty() && !f.help.is_empty(), "{}", f.key);
        if let Some(c) = &f.when {
            assert!(s.field(c.field).is_some(), "{} depends on unknown field", f.key);
        }
    }
}

#[test]
fn conversion_and_job_fields_are_told_apart() {
    let s = schema();
    let job: Vec<&str> = s.keys(Scope::Job);
    assert_eq!(job, vec!["output_dir", "threads"]);
    let conversion = s.keys(Scope::Conversion);
    assert_eq!(conversion.len(), 19);
    assert_eq!(conversion.first(), Some(&"max_size"));
    assert_eq!(conversion.last(), Some(&"ram_limit"));
    assert!(conversion.contains(&"target") && conversion.contains(&"format"));
}

#[test]
fn fields_are_found_by_key() {
    let s = schema();
    let voxel = s.field("voxel_size").unwrap();
    assert_eq!(voxel.kind, Kind::Float);
    assert!(voxel.nullable && voxel.advanced);
    assert_eq!(voxel.placeholder, Some("Auto"));
    let block = s.field("default_block").unwrap();
    let when = block.when.unwrap();
    assert_eq!((when.field, when.equals), ("color_sampling", false));
    assert_eq!(s.field("max_size").unwrap().unit, Some("blocks"));
    assert!(s.field("nope").is_none());
}

#[test]
fn sampling_switch_gates_the_color_fields() {
    let all = fields();
    let gated: Vec<&str> = all
        .iter()
        .filter(|f| matches!(f.when, Some(c) if c.field == "color_sampling" && c.equals))
        .map(|f| f.key)
        .collect();
    assert_eq!(gated.len(), 11);
    assert_eq!(gated[0], "dither");
    assert_eq!(gated[10], "highlight_recovery");
}

#[test]
fn defaults_come_from_settings() {
    let s = schema();
    assert_eq!(s.field("max_size").unwrap().default, DefaultValue::Int(128));
    assert_eq!(s.field("voxel_size").unwrap().default, DefaultValue::Null);
    assert_eq!(s.keys(Scope::Job), vec!["output_dir", "threads"]);
    assert_eq!(s.field("threads").unwrap().default, DefaultValue::Int(4));
    assert_eq!(s.field("output_dir").unwrap().default, DefaultValue::Null);
}

#[test]
fn float_defaults_are_the_settings_own() {
    let s = schema();
    let float = |key: &str| match s.field(key).unwrap().default {
        DefaultValue::Float(bits) => f32::from_bits(bits),
        other => panic!("{key}: {other:?}"),
    };
    assert_eq!(float("contrast"), 1.0);
    assert_eq!(float("light_ambient"), 0.32);
    assert_eq!(float("specular"), 1.1);
    assert_eq!(float("ram_limit"), 4.0);
    match s.field("light_dir").unwrap().default {
        DefaultValue::Direction(d) => assert_eq!(d.map(f32::from_bits), [0.35, 0.85, 0.40]),
        other => panic!("{other:?}"),
    }
    assert_eq!(s.field("target").unwrap().default, DefaultValue::Text("1.21.8"));
    assert_eq!(s.field("format").unwrap().default, DefaultValue::Text("litematic"));
    assert_eq!(s.field("schematic_name").unwrap().default, DefaultValue::Text(""));
    assert_eq!(s.field("dither").unwrap().default, DefaultValue::Bool(true));
}

#[test]
fn choice_fields_offer_their_values() {
    let s = schema();
    assert_eq!(s.field("target").unwrap().choices, Choices::Targets);
    let targets = choice_list(Choices::Targets);
    assert_eq!(targets.len(), 16);
    assert_eq!((targets[0].value, targets[0].label), ("26.3", Some("26.3")));
    assert_eq!(targets[15].value, "1.16.5");
    let formats: Vec<&str> = choice_list(s.field("format").unwrap().choices).iter().map(|c| c.value).collect();
    assert_eq!(formats, ["litematic", "schem", "schem-v3", "nbt"]);
    let blocks = choice_list(s.field("default_block").unwrap().choices);
    assert_eq!((blocks[1].value, blocks[1].label), ("minecraft:netherrack", Some("Netherrack")));
    assert!(choice_list(Choices::Free).is_empty());
}
