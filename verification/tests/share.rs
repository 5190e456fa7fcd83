use gmod_manager::share::{preset_archive, preset_from_member, preset_json, MAX_PRESET_JSON_BYTES};
use std::io::{Cursor, Read, Write};

fn zip_of(members: &[(&str, &[u8])]) -> Vec<u8> {
    let mut w = zip::ZipWriter::new(Cursor::new(Vec::new()));
    let options =
        zip::write::SimpleFileOptions::default().compression_method(zip::CompressionMethod::Stored);
    for (name, bytes) in members {
        w.start_file(*name, options).unwrap();
        w.write_all(bytes).unwrap();
    }
    w.finish().unwrap().into_inner()
}

#[test]
fn shared_preset_round_trips() {
    let json = b"{\"name\":\"Test\",\"id\":\"test\"}\n".to_vec();
    let archive = preset_archive(&json).unwrap();
    assert_eq!(&archive[..4], b"PK\x03\x04");
    assert_eq!(preset_json(&archive).unwrap(), json);
}

#[test]
fn shared_archive_holds_readme_and_preset() {
    let json = b"{}\n".to_vec();
    let archive = preset_archive(&json).unwrap();
    let mut zip = zip::ZipArchive::new(Cursor::new(archive)).unwrap();
    assert_eq!(zip.len(), 2);
    let mut text = String::new();
    zip.by_name("README.txt").unwrap().read_to_string(&mut text).unwrap();
    assert!(text.starts_with("GMod Manager preset\r\n\r\nOpen GMod Manager and click Import"));
    let entry = zip.by_name("preset.json").unwrap();
    assert_eq!(entry.compression(), zip::CompressionMethod::Stored);
    assert_eq!(entry.size(), 3);
}

#[test]
fn bare_json_is_read_as_is() {
    let json = b"{\"binds\":[]}".to_vec();
    assert_eq!(preset_json(&json).unwrap(), json);
    assert_eq!(preset_json(b"").unwrap(), Vec::<u8>::new());
}

#[test]
fn oversized_json_is_refused() {
    let big = vec![b' '; MAX_PRESET_JSON_BYTES + 1];
    assert_eq!(preset_json(&big).unwrap_err(), "Preset JSON is too large (16 MB limit).");
    assert_eq!(preset_archive(&big).unwrap_err(), "Preset is too large to share (16 MB limit).");
    let exact = vec![b' '; MAX_PRESET_JSON_BYTES];
    assert_eq!(preset_json(&exact).unwrap().len(), MAX_PRESET_JSON_BYTES);
}

#[test]
fn zip_without_preset_is_refused() {
    let archive = zip_of(&[("README.txt", b"hello")]);
    assert_eq!(preset_json(&archive).unwrap_err(), "ZIP is missing preset.json.");
}

#[test]
fn zip_with_oversized_preset_is_refused() {
    let big = vec![b' '; MAX_PRESET_JSON_BYTES + 1];
    let archive = zip_of(&[("preset.json", &big)]);
    assert_eq!(
        preset_json(&archive).unwrap_err(),
        "Preset JSON inside ZIP is too large (16 MB limit)."
    );
}

#[test]
fn broken_zip_error_is_passed_on() {
    let err = preset_json(b"PK\x03\x04 not really an archive").unwrap_err();
    assert!(!err.is_empty());
    assert_ne!(err, "ZIP is missing preset.json.");
}

#[test]
fn member_outcomes() {
    assert_eq!(preset_from_member(Err("bad".into())).unwrap_err(), "bad");
    assert_eq!(preset_from_member(Ok(None)).unwrap_err(), "ZIP is missing preset.json.");
    assert_eq!(
        preset_from_member(Ok(Some(((MAX_PRESET_JSON_BYTES + 1) as u64, Ok(vec![1])))))
            .unwrap_err(),
        "Preset JSON inside ZIP is too large (16 MB limit)."
    );
    assert_eq!(
        preset_from_member(Ok(Some((2, Ok(vec![b' '; MAX_PRESET_JSON_BYTES + 1]))))).unwrap_err(),
        "Preset JSON inside ZIP is too large (16 MB limit)."
    );
    assert_eq!(preset_from_member(Ok(Some((2, Err("crc".into()))))).unwrap_err(), "crc");
    assert_eq!(preset_from_member(Ok(Some((2, Ok(vec![1, 2]))))).unwrap(), vec![1, 2]);
}
