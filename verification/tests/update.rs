use gmod_manager::json::Json;
use gmod_manager::update::{check_download, expected_digest, is_newer, latest_release, plausible_size, release_from_text, Release};

fn obj(pairs: Vec<(&str, Json)>) -> Json {
    Json::Object(pairs.into_iter().map(|(k, v)| (k.to_string(), v)).collect())
}

fn text(s: &str) -> Json {
    Json::Str(s.to_string())
}

#[test]
fn version_comparison_is_numeric() {
    assert!(is_newer("v0.5.10", "0.5.9"));
    assert!(is_newer("v1.0.0", "0.9.9"));
    assert!(is_newer("0.6", "0.5.1"));
    assert!(!is_newer("v0.5.1", "0.5.1"));
    assert!(!is_newer("v0.5.0", "0.5.1"));
    assert!(!is_newer("", "0.5.1"));
}

#[test]
fn version_parts_after_dashes_and_plus_count() {
    assert!(is_newer("0.5.1-2", "0.5.0"));
    assert!(!is_newer("0.5.1+9", "0.5.1"));
    assert!(is_newer("  vv2 ", "1.9.9"));
}

fn asset(name: &str, url: &str, size: u64) -> Json {
    obj(vec![("name", text(name)), ("browser_download_url", text(url)), ("size", Json::UInt(size))])
}

#[test]
fn newer_releases_need_both_assets() {
    let release = obj(vec![
        ("tag_name", text("v0.6.0")),
        (
            "assets",
            Json::Array(vec![
                asset("notes.txt", "https://x/notes", 1),
                asset("gmod-manager.exe", "https://x/exe", 1234),
                asset("gmod-manager.exe.sha256", "https://x/sha", 64),
            ]),
        ),
    ]);
    let found = latest_release(&release, "0.5.0").unwrap();
    assert_eq!(found.version, "0.6.0");
    assert_eq!(found.exe_url, "https://x/exe");
    assert_eq!(found.exe_size, 1234);
    assert_eq!(found.sha_url, "https://x/sha");
    assert!(latest_release(&release, "0.6.0").is_none());
    let no_sum = obj(vec![
        ("tag_name", text("v0.6.0")),
        ("assets", Json::Array(vec![asset("gmod-manager.exe", "https://x/exe", 1)])),
    ]);
    assert!(latest_release(&no_sum, "0.5.0").is_none());
}

#[test]
fn downloads_are_checked_before_use() {
    let release = Release {
        version: "0.6.0".into(),
        exe_url: String::new(),
        exe_size: 10,
        sha_url: String::new(),
    };
    assert!(plausible_size(&release).is_ok());
    let empty = Release { exe_size: 0, ..release.clone() };
    assert_eq!(plausible_size(&empty).unwrap_err(), "The update file looks wrong; skipping it.");
    let huge = Release { exe_size: 256 * 1024 * 1024 + 1, ..release.clone() };
    assert!(plausible_size(&huge).is_err());
    assert_eq!(expected_digest("  ABCdef  gmod-manager.exe\n"), "abcdef");
    assert_eq!(expected_digest(""), "");
    assert!(check_download(10, &release, b"MZ", "ab", "ab").is_ok());
    assert_eq!(
        check_download(9, &release, b"MZ", "ab", "ab").unwrap_err(),
        "The update didn't download correctly. Try again later."
    );
    assert!(check_download(10, &release, b"PK", "ab", "ab").is_err());
    assert!(check_download(10, &release, b"MZ", "ab", "cd").is_err());
}

#[test]
fn release_answer_text_is_read_as_json() {
    let body = r#"{"tag_name":"v0.6.0","assets":[{"name":"gmod-manager.exe","browser_download_url":"https://x/exe","size":1234},{"name":"gmod-manager.exe.sha256","browser_download_url":"https://x/sha","size":64}]}"#;
    let found = release_from_text(body, "0.5.0").unwrap().unwrap();
    assert_eq!(found.version, "0.6.0");
    assert_eq!(found.exe_url, "https://x/exe");
    assert_eq!(found.exe_size, 1234);
    assert_eq!(found.sha_url, "https://x/sha");
    assert!(release_from_text(body, "0.6.0").unwrap().is_none());
    let err = release_from_text("<html>", "0.5.0").unwrap_err();
    assert!(err.starts_with("expected value"), "{err}");
}
