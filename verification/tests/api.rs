use schemgen::api::{download_ready, no_models_message, v1_no_models_message, v1_status, ApiError};
use schemgen::error::Error;
use schemgen::jobs::Status;

#[test]
fn errors_map_to_statuses() {
    let e = ApiError::from_error(&Error::invalid("target", "nope".to_string()));
    assert_eq!((e.status, e.message.as_str()), (400, "invalid target: nope"));
    let e = ApiError::from_error(&Error::Cancelled);
    assert_eq!((e.status, e.message.as_str()), (409, "conversion cancelled"));
    let e = ApiError::from_error(&Error::NoGeometry);
    assert_eq!((e.status, e.message.as_str()), (422, "the model has no triangle geometry"));
    assert_eq!(ApiError::unknown_job().status, 404);
    assert_eq!(ApiError::internal("x".into()).status, 500);
}

#[test]
fn only_done_jobs_can_be_downloaded() {
    assert!(download_ready(Status::Done).is_ok());
    assert_eq!(download_ready(Status::Error).unwrap_err().message, "The conversion did not finish");
    assert_eq!(
        download_ready(Status::Queued).unwrap_err().message,
        "Conversion is not finished yet"
    );
    assert_eq!(download_ready(Status::Running).unwrap_err().status, 409);
}

#[test]
fn bad_requests_say_what_is_wrong() {
    assert_eq!(no_models_message(&Vec::new()), "Upload at least one .glb or .gltf model");
    assert_eq!(
        no_models_message(&vec!["model.obj".to_string(), "a.fbx".to_string()]),
        "Only .glb / .gltf models are supported (got model.obj, a.fbx)"
    );
    assert_eq!(v1_no_models_message(false), "No files uploaded");
    assert_eq!(v1_no_models_message(true), "No valid .glb / .gltf files found");
    let e = ApiError::bad_request("--port: 'x' is not a port number".to_string());
    assert_eq!(e.status, 400);
    assert_eq!(e.message, "--port: 'x' is not a port number");
}

#[test]
fn v1_names_statuses_its_own_way() {
    assert_eq!(v1_status(Status::Queued), "running");
    assert_eq!(v1_status(Status::Running), "running");
    assert_eq!(v1_status(Status::Done), "done");
    assert_eq!(v1_status(Status::Cancelled), "error");
}

#[test]
fn error_messages_read_as_sentences() {
    assert_eq!(
        Error::UnsupportedInput("m.obj".into()).message(),
        "not a glTF model: m.obj (expected .glb or .gltf)"
    );
    assert_eq!(
        Error::Read { path: "/m.glb".into(), message: "denied".into() }.message(),
        "could not read /m.glb: denied"
    );
    assert_eq!(
        Error::NoTextures("/t".into()).message(),
        "no usable block textures in /t — point it at assets/minecraft/textures/block"
    );
    assert_eq!(Error::Io("disk full".into()).message(), "disk full");
}
