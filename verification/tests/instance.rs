use schemgen::instance::{instance_version, member_of, small_enough_to_read, Json};

/// A parsed JSON document in the library's own shape.
fn json(text: &str) -> Json {
    fn convert(v: &serde_json::Value) -> Json {
        match v {
            serde_json::Value::Null => Json::Null,
            serde_json::Value::Bool(b) => Json::Bool(*b),
            serde_json::Value::Number(n) => Json::Number(n.to_string()),
            serde_json::Value::String(s) => Json::Str(s.clone()),
            serde_json::Value::Array(items) => Json::Array(items.iter().map(convert).collect()),
            serde_json::Value::Object(map) => {
                Json::Object(map.iter().map(|(k, v)| (k.clone(), convert(v))).collect())
            }
        }
    }
    convert(&serde_json::from_str(text).unwrap())
}

#[test]
fn prism_packs_name_the_minecraft_component() {
    let pack = json(
        r#"{"components": [{"uid": "org.lwjgl3", "version": "3.3.3"},
                          {"uid": "net.minecraft", "version": "1.21.1"}]}"#,
    );
    assert_eq!(instance_version(Some(&pack), None, None), Some("1.21.1".to_string()));
    let none = json(r#"{"components": [{"uid": "org.lwjgl3"}]}"#);
    assert_eq!(instance_version(Some(&none), None, None), None);
    let broken = json(r#"{"components": 5}"#);
    assert_eq!(instance_version(Some(&broken), Some(&json(r#"{"gameVersion": "1.20.1"}"#)), None), None);
}

#[test]
fn curseforge_and_modrinth_have_their_own_keys() {
    let cf = json(r#"{"gameVersion": "1.20.1"}"#);
    assert_eq!(instance_version(None, Some(&cf), None), Some("1.20.1".to_string()));
    let cf_old = json(r#"{"baseModLoader": {"minecraftVersion": "1.19.2"}}"#);
    assert_eq!(instance_version(None, Some(&cf_old), None), Some("1.19.2".to_string()));
    let profile = json(r#"{"metadata": {"game_version": "1.18.2"}}"#);
    assert_eq!(instance_version(None, None, Some(&profile)), Some("1.18.2".to_string()));
    let flat = json(r#"{"game_version": "1.17.1", "metadata": {}}"#);
    assert_eq!(instance_version(None, None, Some(&flat)), Some("1.17.1".to_string()));
    let numeric = json(r#"{"gameVersion": 1.2}"#);
    assert_eq!(instance_version(None, Some(&numeric), None), None);
    assert_eq!(instance_version(None, None, None), None);
}

#[test]
fn members_of_non_objects_are_null() {
    assert!(member_of(&json("[1, 2]"), "a").is_none());
    assert!(member_of(&json(r#"{"a": null}"#), "a").is_some());
    assert!(small_enough_to_read(4 * 1024 * 1024));
    assert!(!small_enough_to_read(4 * 1024 * 1024 + 1));
}
