use schemgen::reader::{read, Tag};
use schemgen::nbt::{decode_modified_utf8, modified_utf8, NbtError, NbtWriter, TAG_COMPOUND, TAG_INT};

#[test]
fn modified_utf8_round_trips() {
    for s in ["", "castle", "Größe", "日本語", "emoji 🧱 ok", "nul\u{0}here"] {
        let bytes = modified_utf8(s);
        assert!(!bytes.contains(&0), "no raw NUL bytes in {s:?}");
        assert_eq!(decode_modified_utf8(&bytes).unwrap(), s);
    }
    // Supplementary characters are two three-byte surrogates, not four bytes.
    assert_eq!(modified_utf8("🧱").len(), 6);
}

#[test]
fn overlong_strings_are_rejected() {
    let mut w = NbtWriter::new(Vec::new());
    assert!(w.string("x", &"a".repeat(70_000)).is_err());
}

#[test]
fn nul_is_two_bytes_and_ascii_is_one() {
    assert_eq!(modified_utf8("\u{0}"), vec![0xC0, 0x80]);
    assert_eq!(modified_utf8("A"), vec![0x41]);
    assert_eq!(modified_utf8("é"), vec![0xC3, 0xA9]);
    assert_eq!(modified_utf8("日"), vec![0xE6, 0x97, 0xA5]);
}

#[test]
fn malformed_modified_utf8_is_an_error() {
    assert_eq!(decode_modified_utf8(&[0x80]), Err(NbtError::InvalidUtf8));
    assert_eq!(decode_modified_utf8(&[0xC3]), Err(NbtError::InvalidUtf8));
    assert_eq!(decode_modified_utf8(&[0xF0, 0x80, 0x80, 0x80]), Err(NbtError::InvalidUtf8));
    // A lone high surrogate.
    assert_eq!(decode_modified_utf8(&[0xED, 0xA0, 0x80]), Err(NbtError::InvalidUtf8));
}

#[test]
fn surrogate_pairs_decode_to_one_character() {
    let bytes = [0xED, 0xA0, 0xBE, 0xED, 0xB7, 0xB1];
    assert_eq!(decode_modified_utf8(&bytes).unwrap(), "\u{1F9F1}");
    assert_eq!(decode_modified_utf8(&[0xEF, 0xBF, 0xBF]).unwrap(), "\u{FFFF}");
    assert_eq!(decode_modified_utf8(&[0xEE, 0x80, 0x80]).unwrap(), "\u{E000}");
    // A lone low surrogate, and a high surrogate followed by a plain unit.
    assert_eq!(decode_modified_utf8(&[0xED, 0xB7, 0xB1]), Err(NbtError::InvalidUtf8));
    assert_eq!(decode_modified_utf8(&[0xED, 0xA0, 0xBE, 0x41]), Err(NbtError::InvalidUtf8));
}

#[test]
fn scalars_are_big_endian_after_their_header() {
    let mut w = NbtWriter::new(Vec::new());
    w.int32("i", -2).unwrap();
    w.short("s", 300).unwrap();
    w.long("l", 1 << 40).unwrap();
    w.byte("b", -3).unwrap();
    let bytes = w.into_inner();
    assert_eq!(
        bytes,
        vec![
            3, 0, 1, b'i', 0xFF, 0xFF, 0xFF, 0xFE, //
            2, 0, 1, b's', 0x01, 0x2C, //
            4, 0, 1, b'l', 0, 0, 1, 0, 0, 0, 0, 0, //
            1, 0, 1, b'b', 0xFD,
        ]
    );
}

#[test]
fn lists_arrays_and_compounds() {
    let mut w = NbtWriter::new(vec![0xAA]);
    w.begin_compound("").unwrap();
    w.begin_list("pos", TAG_INT, 2).unwrap();
    w.list_int(4).unwrap();
    w.list_int(5).unwrap();
    w.begin_list("empty", TAG_COMPOUND, 0).unwrap();
    w.byte_array("ba", &[1, 255]).unwrap();
    w.int_array("ia", &[1, -1]).unwrap();
    w.long_array("la", &[u64::MAX]).unwrap();
    w.list_string("é").unwrap();
    w.end().unwrap();
    let bytes = w.into_inner();
    assert_eq!(
        bytes,
        vec![
            0xAA, 10, 0, 0, //
            9, 0, 3, b'p', b'o', b's', 3, 0, 0, 0, 2, 0, 0, 0, 4, 0, 0, 0, 5, //
            9, 0, 5, b'e', b'm', b'p', b't', b'y', 0, 0, 0, 0, 0, //
            7, 0, 2, b'b', b'a', 0, 0, 0, 2, 1, 255, //
            11, 0, 2, b'i', b'a', 0, 0, 0, 2, 0, 0, 0, 1, 0xFF, 0xFF, 0xFF, 0xFF, //
            12, 0, 2, b'l', b'a', 0, 0, 0, 1, 0xFF, 0xFF, 0xFF, 0xFF, 0xFF, 0xFF, 0xFF, 0xFF, //
            0, 2, 0xC3, 0xA9, //
            0,
        ]
    );
}

#[test]
fn a_long_name_leaves_only_the_type_byte() {
    let mut w = NbtWriter::new(Vec::new());
    let long = "a".repeat(70_000);
    assert_eq!(w.int32(&long, 1), Err(NbtError::StringTooLong));
    assert_eq!(w.into_inner(), vec![3]);
}

#[test]
fn written_tags_read_back() {
    let mut w = NbtWriter::new(Vec::new());
    w.begin_compound("").unwrap();
    w.byte("b", -3).unwrap();
    w.short("s", 300).unwrap();
    w.int32("i", -70000).unwrap();
    w.long("l", 1 << 40).unwrap();
    w.string("name", "château").unwrap();
    w.byte_array("bytes", &[1, 2, 255]).unwrap();
    w.int_array("ints", &[1, -1]).unwrap();
    w.long_array("longs", &[u64::MAX, 7]).unwrap();
    w.begin_list("pos", TAG_INT, 3).unwrap();
    for v in [4, 5, 6] {
        w.list_int(v).unwrap();
    }
    w.begin_list("items", TAG_COMPOUND, 2).unwrap();
    for id in ["a", "b"] {
        w.string("id", id).unwrap();
        w.end().unwrap();
    }
    w.begin_list("empty", TAG_COMPOUND, 0).unwrap();
    w.begin_compound("nested").unwrap();
    w.int32("x", 1).unwrap();
    w.end().unwrap();
    w.end().unwrap();

    let bytes = w.into_inner();
    let (name, root) = read(bytes.as_slice()).unwrap();
    assert_eq!(name, "");
    assert_eq!(root.get("b"), Some(&Tag::Byte(-3)));
    assert_eq!(root.get("s").and_then(Tag::as_i64), Some(300));
    assert_eq!(root.get("i").and_then(Tag::as_i64), Some(-70000));
    assert_eq!(root.get("l").and_then(Tag::as_i64), Some(1 << 40));
    assert_eq!(root.get("name").and_then(Tag::as_str), Some("château"));
    assert_eq!(root.get("bytes"), Some(&Tag::ByteArray(vec![1, 2, 255])));
    assert_eq!(root.get("ints"), Some(&Tag::IntArray(vec![1, -1])));
    assert_eq!(root.get("longs"), Some(&Tag::LongArray(vec![-1, 7])));
    assert_eq!(
        root.get("pos"),
        Some(&Tag::List(vec![Tag::Int(4), Tag::Int(5), Tag::Int(6)]))
    );
    let items = root.get("items").and_then(Tag::as_list).unwrap();
    assert_eq!(items[1].get("id").and_then(Tag::as_str), Some("b"));
    assert_eq!(root.get("empty"), Some(&Tag::List(vec![])));
    assert_eq!(root.at(&["nested", "x"]), Some(&Tag::Int(1)));
    assert_eq!(
        root.keys(),
        [
            "b", "s", "i", "l", "name", "bytes", "ints", "longs", "pos", "items", "empty",
            "nested"
        ]
    );
}

#[test]
fn truncated_input_is_an_error_not_a_panic() {
    let mut w = NbtWriter::new(Vec::new());
    w.begin_compound("").unwrap();
    w.string("name", "castle").unwrap();
    w.end().unwrap();
    let bytes = w.into_inner();
    for cut in 0..bytes.len() {
        assert!(read(&bytes[..cut]).is_err(), "cut at {cut}");
    }
}

#[test]
fn reader_errors_say_what_went_wrong() {
    assert_eq!(read(&[]).unwrap_err(), NbtError::Truncated);
    assert_eq!(read(&[3, 0, 0, 0, 0, 0, 0]).unwrap_err(), NbtError::RootNotCompound);
    // An unknown tag type inside the root compound.
    assert_eq!(read(&[10, 0, 0, 99, 0, 0]).unwrap_err(), NbtError::UnknownTag(99));
    // A byte array of negative length.
    assert_eq!(
        read(&[10, 0, 0, 7, 0, 1, b'a', 0xFF, 0xFF, 0xFF, 0xFF]).unwrap_err(),
        NbtError::NegativeLength
    );
}

#[test]
fn deep_nesting_is_refused() {
    // Root compound, then 600 nested compounds named "".
    let mut bytes = vec![10, 0, 0];
    for _ in 0..600 {
        bytes.extend_from_slice(&[10, 0, 0]);
    }
    bytes.extend(std::iter::repeat(0).take(601));
    assert_eq!(read(&bytes).unwrap_err(), NbtError::TooDeep);
}

#[test]
fn floats_keep_their_bits() {
    let one = 1.5f32.to_bits().to_be_bytes();
    let two = 2.25f64.to_bits().to_be_bytes();
    let mut bytes = vec![10, 0, 0, 5, 0, 1, b'f'];
    bytes.extend_from_slice(&one);
    bytes.extend_from_slice(&[6, 0, 1, b'd']);
    bytes.extend_from_slice(&two);
    bytes.push(0);
    let (_, root) = read(&bytes).unwrap();
    assert_eq!(root.get("f"), Some(&Tag::Float(1.5f32.to_bits())));
    assert_eq!(root.get("d"), Some(&Tag::Double(2.25f64.to_bits())));
}
