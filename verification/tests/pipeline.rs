use schemgen::error::Error;
use schemgen::pipeline::check_input;

#[test]
fn only_gltf_models_that_exist_go_in() {
    assert_eq!(check_input("castle.GLB", true), Ok(()));
    assert_eq!(check_input("scene.gltf", true), Ok(()));
    assert_eq!(
        check_input("model.obj", true),
        Err(Error::UnsupportedInput("model.obj".to_string()))
    );
    let missing = check_input("gone.glb", false).unwrap_err();
    assert_eq!(
        missing,
        Error::Read { path: "gone.glb".to_string(), message: "entity not found".to_string() }
    );
    assert_eq!(missing.message(), "could not read gone.glb: entity not found");
    assert_eq!(
        check_input("model.obj", false).unwrap_err().message(),
        "not a glTF model: model.obj (expected .glb or .gltf)"
    );
}
