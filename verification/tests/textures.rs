use std::io::Write;

use schemgen::textures::{
    check_entry, data_skip, find_texture, jar_name, locate_directory, newest, release_version,
    tail_len, texture_index, unpack, valid_name, version_numbers, ZipEntry,
};

/// A zip holding `files`, deflated, as a jar would store them.
fn zip_bytes(files: &[(&str, &[u8])]) -> Vec<u8> {
    let mut out = Vec::new();
    let mut central = Vec::new();
    for (name, data) in files {
        let mut enc =
            flate2::write::DeflateEncoder::new(Vec::new(), flate2::Compression::default());
        enc.write_all(data).unwrap();
        let packed = enc.finish().unwrap();
        let offset = out.len() as u32;
        let mut local = vec![0u8; 30];
        local[0..4].copy_from_slice(&0x0403_4b50u32.to_le_bytes());
        local[8..10].copy_from_slice(&8u16.to_le_bytes());
        local[18..22].copy_from_slice(&(packed.len() as u32).to_le_bytes());
        local[22..26].copy_from_slice(&(data.len() as u32).to_le_bytes());
        local[26..28].copy_from_slice(&(name.len() as u16).to_le_bytes());
        out.extend_from_slice(&local);
        out.extend_from_slice(name.as_bytes());
        out.extend_from_slice(&packed);
        let mut entry = vec![0u8; 46];
        entry[0..4].copy_from_slice(&0x0201_4b50u32.to_le_bytes());
        entry[10..12].copy_from_slice(&8u16.to_le_bytes());
        entry[20..24].copy_from_slice(&(packed.len() as u32).to_le_bytes());
        entry[24..28].copy_from_slice(&(data.len() as u32).to_le_bytes());
        entry[28..30].copy_from_slice(&(name.len() as u16).to_le_bytes());
        entry[42..46].copy_from_slice(&offset.to_le_bytes());
        central.extend_from_slice(&entry);
        central.extend_from_slice(name.as_bytes());
    }
    let dir_offset = out.len() as u32;
    out.extend_from_slice(&central);
    let mut end = vec![0u8; 22];
    end[0..4].copy_from_slice(&0x0605_4b50u32.to_le_bytes());
    end[8..10].copy_from_slice(&(files.len() as u16).to_le_bytes());
    end[10..12].copy_from_slice(&(files.len() as u16).to_le_bytes());
    end[12..16].copy_from_slice(&(central.len() as u32).to_le_bytes());
    end[16..20].copy_from_slice(&dir_offset.to_le_bytes());
    out.extend_from_slice(&end);
    out
}

/// The central directory of a whole zip file.
fn directory(zip: &[u8]) -> Result<Vec<u8>, String> {
    let len = zip.len() as u64;
    let tail = &zip[(len - tail_len(len)) as usize..];
    let (offset, size) = locate_directory(tail, len)?;
    Ok(zip[offset as usize..(offset + size) as usize].to_vec())
}

/// The unpacked contents of `entry` in a whole zip file.
fn read_entry(zip: &[u8], entry: &ZipEntry) -> Result<Vec<u8>, String> {
    check_entry(entry)?;
    let at = entry.header_offset as usize;
    let skip = data_skip(&zip[at..at + 30])? as usize;
    let from = at + 30 + skip;
    unpack(entry, zip[from..from + entry.compressed as usize].to_vec())
}

#[test]
fn reads_block_textures_out_of_a_jar() {
    let jar = zip_bytes(&[
        ("assets/minecraft/textures/block/stone.png", b"stone png bytes"),
        ("assets/minecraft/textures/item/apple.png", b"not a block"),
        ("net/minecraft/Main.class", b"code"),
    ]);
    let index = texture_index(&directory(&jar).unwrap()).unwrap();
    let stone = find_texture(&index, "stone").unwrap();
    assert_eq!(read_entry(&jar, &stone).unwrap(), b"stone png bytes");
    assert!(find_texture(&index, "apple").is_none());
    assert!(find_texture(&index, "../item/apple").is_none());
    assert_eq!(index.len(), 1);
}

#[test]
fn names_are_file_stems_only() {
    assert!(valid_name("oak_log_top"));
    let long = "a".repeat(65);
    for bad in ["", "Stone", "../x", "a/b", "a.png", long.as_str()] {
        assert!(!valid_name(bad), "{bad}");
    }
}

#[test]
fn sixty_four_characters_is_still_a_name() {
    assert!(valid_name(&"a".repeat(64)));
    assert!(valid_name("0_9"));
}

#[test]
fn a_jar_without_block_textures_is_refused() {
    let jar = zip_bytes(&[("net/minecraft/Main.class", b"code")]);
    assert_eq!(
        texture_index(&directory(&jar).unwrap()).unwrap_err(),
        "it has no block textures"
    );
}

#[test]
fn garbage_has_no_central_directory() {
    assert_eq!(
        directory(b"definitely not a zip file at all").unwrap_err(),
        "not a readable jar or zip: no end of central directory"
    );
    let mut jar = zip_bytes(&[("assets/minecraft/textures/block/dirt.png", b"dirt")]);
    // Point the directory past the end of the file.
    let n = jar.len();
    jar[n - 6..n - 2].copy_from_slice(&0xffff_0000u32.to_le_bytes());
    assert_eq!(
        directory(&jar).unwrap_err(),
        "not a readable jar or zip: central directory out of range"
    );
}

#[test]
fn a_name_running_past_the_directory_is_truncation() {
    let jar = zip_bytes(&[("assets/minecraft/textures/block/dirt.png", b"dirt")]);
    let mut dir = directory(&jar).unwrap();
    dir[28..30].copy_from_slice(&500u16.to_le_bytes());
    assert_eq!(
        texture_index(&dir).unwrap_err(),
        "not a readable jar or zip: truncated central directory"
    );
}

#[test]
fn a_name_listed_twice_keeps_the_later_entry() {
    let jar = zip_bytes(&[
        ("assets/minecraft/textures/block/dirt.png", b"old"),
        ("assets/minecraft/textures/block/sand.png", b"sand"),
        ("assets/minecraft/textures/block/dirt.png", b"new"),
    ]);
    let index = texture_index(&directory(&jar).unwrap()).unwrap();
    assert_eq!(index.len(), 2);
    assert_eq!(index[0].0, "dirt");
    assert_eq!(index[1].0, "sand");
    let dirt = find_texture(&index, "dirt").unwrap();
    assert_eq!(read_entry(&jar, &dirt).unwrap(), b"new");
}

#[test]
fn entries_are_stored_or_deflated_and_nothing_else() {
    let stored = ZipEntry { method: 0, compressed: 3, size: 3, header_offset: 0 };
    assert_eq!(unpack(&stored, b"raw".to_vec()).unwrap(), b"raw");
    let other = ZipEntry { method: 12, compressed: 3, size: 3, header_offset: 0 };
    assert_eq!(unpack(&other, b"raw".to_vec()).unwrap_err(), "unsupported compression");
    let huge = ZipEntry { method: 8, compressed: 10, size: (16 << 20) + 1, header_offset: 0 };
    assert_eq!(check_entry(&huge).unwrap_err(), "entry too large");
    assert!(check_entry(&ZipEntry { size: 16 << 20, ..huge }).is_ok());
    assert_eq!(data_skip(&[0u8; 30]).unwrap_err(), "bad local header");
}

#[test]
fn inflating_stops_at_the_listed_size() {
    let mut enc = flate2::write::DeflateEncoder::new(Vec::new(), flate2::Compression::default());
    enc.write_all(b"abcdefgh").unwrap();
    let packed = enc.finish().unwrap();
    let entry = ZipEntry { method: 8, compressed: packed.len() as u64, size: 4, header_offset: 0 };
    assert_eq!(unpack(&entry, packed).unwrap(), b"abcd");
}

#[test]
fn the_newest_release_wins_and_ties_go_to_the_last() {
    let versions: Vec<String> =
        ["1.20.4", "1.21", "1.9", "1.21.0", "1.21"].iter().map(|s| s.to_string()).collect();
    assert_eq!(newest(&versions), Some(3));
    let same: Vec<String> = ["1.21", "1.21"].iter().map(|s| s.to_string()).collect();
    assert_eq!(newest(&same), Some(1));
    assert_eq!(newest(&Vec::new()), None);
    assert_eq!(version_numbers("1.21.4"), vec![1, 21, 4]);
    assert_eq!(version_numbers("1..2"), vec![1, 2]);
    assert_eq!(version_numbers("99999999999.1"), vec![1]);
}

#[test]
fn only_plain_releases_count() {
    assert!(release_version("1.21.4"));
    assert!(!release_version("1.21.4-pre1"));
    assert!(!release_version("24w14a"));
    assert!(!release_version(""));
    assert_eq!(jar_name("1.21.4", false), "1.21.4.jar");
    assert_eq!(jar_name("1.21.4", true), "minecraft-1.21.4-client.jar");
}
