use base64::Engine;

use schemgen::error::Error;
use schemgen::uri::{
    check_buffer, check_required_extensions, check_validation, data_uri_result, percent_decode,
    implicit_indices, read_data_uri, relative_path, reverse_windings, texture_image, triangles,
    TriMode,
};

fn mesh(message: &str) -> Error {
    Error::Mesh(message.to_string())
}

#[test]
fn escapes_decode_to_bytes_then_text() {
    assert_eq!(percent_decode("a%20b").as_deref(), Some("a b"));
    assert_eq!(percent_decode("caf%C3%A9").as_deref(), Some("café"));
    assert_eq!(percent_decode("plain").as_deref(), Some("plain"));
    assert_eq!(percent_decode("%41%62").as_deref(), Some("Ab"));
    assert_eq!(percent_decode("%2a").as_deref(), Some("*"));
}

#[test]
fn broken_escapes_and_non_utf8_decode_to_nothing() {
    assert_eq!(percent_decode("%zz"), None);
    assert_eq!(percent_decode("50%"), None);
    assert_eq!(percent_decode("%4"), None);
    assert_eq!(percent_decode("%FF"), None);
    assert_eq!(percent_decode("%-1"), None);
}

#[test]
fn a_plus_sign_counts_as_the_escape_s_sign() {
    // `u8::from_str_radix` reads "+9" as 9.
    assert_eq!(percent_decode("%+9").as_deref(), Some("\u{9}"));
}

#[test]
fn relative_references_become_paths() {
    assert_eq!(
        relative_path("textures/a%20b.png?v=2#top").as_deref(),
        Some("textures/a b.png")
    );
    assert_eq!(relative_path("model.bin").as_deref(), Some("model.bin"));
    assert_eq!(relative_path("dir/a:b.bin").as_deref(), Some("dir/a:b.bin"));
}

#[test]
fn rooted_or_schemed_references_are_not_relative() {
    for uri in ["", "/etc/passwd", "\\\\server\\share", "http://example.com/a.bin", "C:/x.bin", "file:a.bin"] {
        assert_eq!(relative_path(uri), None, "{uri}");
    }
    assert_eq!(relative_path("a%zz.bin"), None);
}

#[test]
fn data_uris_hold_their_bytes() {
    assert_eq!(
        read_data_uri("data:application/octet-stream;base64,AAEC"),
        Some(Ok(vec![0, 1, 2]))
    );
    assert_eq!(
        read_data_uri("data:application/octet-stream;base64, AAE= "),
        Some(Ok(vec![0, 1]))
    );
    // Padding may be left out.
    assert_eq!(read_data_uri("data:;base64,AAE"), Some(Ok(vec![0, 1])));
    assert_eq!(read_data_uri("model.bin"), None);
}

#[test]
fn what_base64_encodes_a_data_uri_gives_back() {
    let bytes: Vec<u8> = (0..=255u8).rev().collect();
    let uri = format!(
        "data:application/gltf-buffer;base64,{}",
        base64::engine::general_purpose::STANDARD.encode(&bytes)
    );
    assert_eq!(read_data_uri(&uri), Some(Ok(bytes)));
}

#[test]
fn malformed_data_uris_say_why() {
    assert_eq!(read_data_uri("data:abc"), Some(Err(mesh("malformed data URI"))));
    assert_eq!(
        read_data_uri("data:text/plain,hello"),
        Some(Err(mesh("data URIs must be base64-encoded")))
    );
    match read_data_uri("data:;base64,@@@@") {
        Some(Err(Error::Mesh(m))) => assert!(m.starts_with("bad base64 in a data URI: "), "{m}"),
        other => panic!("{other:?}"),
    }
    assert_eq!(
        data_uri_result(Err("Invalid symbol 64, offset 0.".to_string())),
        Err(mesh("bad base64 in a data URI: Invalid symbol 64, offset 0."))
    );
    assert_eq!(data_uri_result(Ok(vec![7])), Ok(vec![7]));
}

#[test]
fn readable_extensions_may_be_required() {
    assert_eq!(check_required_extensions(&[]), Ok(()));
    let fine = ["KHR_texture_transform".to_string(), "EXT_texture_webp".to_string()];
    assert_eq!(check_required_extensions(&fine), Ok(()));
}

#[test]
fn unreadable_extensions_are_named() {
    let one = ["KHR_texture_transform".to_string(), "EXT_future".to_string()];
    assert_eq!(
        check_required_extensions(&one),
        Err(mesh("the model needs glTF extension EXT_future, which SchemGen2 cannot read"))
    );
    let two = ["KHR_draco_mesh_compression".to_string(), "EXT_future".to_string()];
    assert_eq!(
        check_required_extensions(&two),
        Err(mesh(
            "the model needs glTF extensions KHR_draco_mesh_compression, EXT_future, which \
             SchemGen2 cannot read — export it again without mesh compression or quantization"
        ))
    );
}

#[test]
fn validation_problems_are_summarised() {
    let p = |path: &str, what: &str| (path.to_string(), what.to_string());
    assert_eq!(check_validation(&[]), Ok(()));
    assert_eq!(check_validation(&[p("extensionsRequired[0]", "unsupported")]), Ok(()));
    assert_eq!(
        check_validation(&[p("meshes[0]", "missing"), p("extensionsRequired[1]", "x")]),
        Err(mesh("the file is not valid glTF (meshes[0]: missing)"))
    );
    let many = [
        p("a", "1"),
        p("extensionsRequired", "skip"),
        p("b", "2"),
        p("c", "3"),
        p("d", "4"),
    ];
    assert_eq!(
        check_validation(&many),
        Err(mesh("the file is not valid glTF (a: 1; b: 2; c: 3; …)"))
    );
}

#[test]
fn buffers_must_hold_what_the_file_declares() {
    assert_eq!(check_buffer(1, Some(10), 10), Ok(()));
    assert_eq!(check_buffer(1, Some(12), 10), Ok(()));
    assert_eq!(
        check_buffer(2, Some(5), 10),
        Err(mesh("buffer 2 holds 5 bytes but the file says 10"))
    );
    assert_eq!(
        check_buffer(0, None, 10),
        Err(mesh("buffer 0 refers to the GLB's binary chunk, which is missing"))
    );
}

#[test]
fn uris_are_relative_and_decoded() {
    assert_eq!(relative_path("tex/a%20b.png").as_deref(), Some("tex/a b.png"));
    assert_eq!(relative_path("/etc/passwd"), None);
    assert_eq!(relative_path("file:///etc/passwd"), None);
    assert_eq!(relative_path("C:\\x.png"), None);
    assert_eq!(
        read_data_uri("data:application/octet-stream;base64,AAEC"),
        Some(Ok(vec![0, 1, 2]))
    );
}

#[test]
fn required_extensions_are_refused_by_name() {
    let required = ["KHR_draco_mesh_compression".to_string()];
    let text = check_required_extensions(&required).unwrap_err().message();
    assert!(
        text.contains("KHR_draco_mesh_compression") && text.contains("without mesh compression"),
        "{text}"
    );
}

#[test]
fn a_webp_image_wins_over_the_fallback() {
    assert_eq!(texture_image(Some(2), Some(0), 3), Some(2));
    assert_eq!(texture_image(None, Some(0), 3), Some(0));
    assert_eq!(texture_image(Some(3), Some(0), 3), None);
    assert_eq!(texture_image(None, Some(5), 3), None);
    assert_eq!(texture_image(None, None, 3), None);
}

#[test]
fn indices_make_triangles_in_each_mode() {
    let idx = [0, 1, 2, 3, 4];
    assert_eq!(triangles(TriMode::Triangles, &idx, 5, 0), Ok(vec![[0, 1, 2]]));
    assert_eq!(
        triangles(TriMode::Strip, &idx, 5, 0),
        Ok(vec![[0, 1, 2], [3, 2, 1], [2, 3, 4]])
    );
    assert_eq!(
        triangles(TriMode::Fan, &idx, 5, 0),
        Ok(vec![[0, 1, 2], [0, 2, 3], [0, 3, 4]])
    );
    assert_eq!(triangles(TriMode::Fan, &[0, 1], 5, 0), Ok(vec![]));
    assert_eq!(implicit_indices(4), vec![0, 1, 2, 3]);
}

#[test]
fn an_index_past_the_vertices_is_refused() {
    assert_eq!(
        triangles(TriMode::Triangles, &[0, 1, 7], 3, 2),
        Err(mesh("primitive 2 indexes past its 3 vertices"))
    );
}

#[test]
fn reversing_windings_swaps_first_and_last() {
    let mut t = vec![[0, 1, 2], [3, 4, 5]];
    reverse_windings(&mut t);
    assert_eq!(t, vec![[2, 1, 0], [5, 4, 3]]);
}
