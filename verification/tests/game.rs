use gmod_manager::game::{
    binds_from_config, capture_settings, checked_url, collection_url, display_path, install_dir,
    library_paths, quoted_parts,
};
use gmod_manager::model::{Profile, Setting};

#[test]
fn display_path_hides_windows_verbatim_prefix() {
    assert_eq!(
        display_path(r"\\?\C:\Games\GarrysMod\garrysmod"),
        r"C:\Games\GarrysMod\garrysmod"
    );
}

#[test]
fn display_path_keeps_network_and_plain_paths() {
    assert_eq!(display_path(r"\\?\UNC\server\share\gmod"), r"\\server\share\gmod");
    assert_eq!(display_path("/home/me/gmod"), "/home/me/gmod");
}

#[test]
fn quoted_parts_read_each_quoted_word() {
    assert_eq!(quoted_parts(r#"bind "F" "+use" // x"#), ["F", "+use"]);
    assert_eq!(quoted_parts(r#""path"  "D:\\Steam"#), ["path", r"D:\\Steam"]);
    assert!(quoted_parts("none").is_empty());
}

#[test]
fn binds_come_from_bind_lines() {
    let text = "unbindall\n  BIND \"F\" \"+use\"\nbind \"a;b\" \"say hi\"\nbind \"x\"\nbindtoggle \"k\" \"v\"\n";
    let binds = binds_from_config(text);
    assert_eq!(binds.len(), 2);
    assert_eq!((binds[0].key.as_str(), binds[0].command.as_str(), binds[0].sync), ("F", "+use", true));
    assert_eq!((binds[1].key.as_str(), binds[1].sync), ("a;b", false));
}

fn setting(name: &str, value: &str, sync: bool) -> Setting {
    Setting { name: name.into(), value: value.into(), sync }
}

#[test]
fn captured_settings_take_the_last_value() {
    let texts = vec![
        "sensitivity \"2\"\n// fov_desired 10\nFOV_Desired 90\nlonely\n".to_string(),
        "  sensitivity   \"3.5\"  \nvolume 1\n".to_string(),
    ];
    let mut settings = vec![
        setting("sensitivity", "1", true),
        setting("fov_desired", "75", true),
        setting("volume", "0", false),
        setting("missing", "x", true),
    ];
    let n = capture_settings(&texts, &mut settings);
    assert_eq!(n, 2);
    assert_eq!(settings[0].value, "3.5");
    assert_eq!(settings[1].value, "90");
    assert_eq!(settings[2].value, "0");
    assert_eq!(settings[3].value, "x");
}

#[test]
fn steam_library_files() {
    let vdf = "\"libraryfolders\"\n{\n\t\"0\"\n\t{\n\t\t\"path\"\t\t\"C:\\\\Program Files (x86)\\\\Steam\"\n\t}\n\t\"1\"\n\t{\n\t\t\"path\"\t\t\"D:\\\\Games\"\n\t}\n}\n";
    assert_eq!(library_paths(vdf), [r"C:\Program Files (x86)\Steam", r"D:\Games"]);
    assert_eq!(install_dir("\"AppState\"\n{\n\t\"installdir\"\t\t\"GarrysMod2\"\n}\n"), "GarrysMod2");
    assert_eq!(install_dir("\"AppState\"\n{\n}\n"), "GarrysMod");
}

#[test]
fn links_and_collections() {
    assert!(checked_url("https://example.com").is_ok());
    assert_eq!(checked_url("http://example.com").unwrap_err(), "That link isn't a valid https:// address.");
    let mut profile = Profile::blank("Test", "test");
    profile.source.collection_url = "https://saved/link".into();
    assert_eq!(collection_url(&profile), "https://saved/link");
    profile.workshop.collection_id = "99".into();
    assert_eq!(collection_url(&profile), "https://steamcommunity.com/sharedfiles/filedetails/?id=99");
}
