use gmod_manager::config::{config_plan, ConfigFiles};
use gmod_manager::library::Plan;
use gmod_manager::model::{Bind, FileMapping, Profile, Setting, WorkshopItem};
use gmod_manager::validate::{checked_mapping, validate_profile};

fn files(menu: &str) -> ConfigFiles {
    ConfigFiles {
        menu: Some(menu.to_string()),
        menu_path: "garrysmod/lua/menu/menu.lua".to_string(),
        nomount: None,
        autoexec: String::new(),
    }
}

#[test]
fn rejects_traversal_and_duplicate_keys() {
    let mut profile = Profile::blank("Test", "test");
    profile.file_mappings.push(FileMapping {
        path: "cfg/../x.cfg".into(),
        content: "x".into(),
        sync: true,
    });
    assert!(validate_profile(&profile).is_err());
    profile.file_mappings.clear();
    profile.binds.push(Bind {
        key: "F".into(),
        command: "+use".into(),
        sync: true,
    });
    profile.binds.push(Bind {
        key: "f".into(),
        command: "+attack".into(),
        sync: true,
    });
    assert!(validate_profile(&profile).is_err());
}

#[test]
fn blank_new_rows_do_not_block_saving_or_reach_config() {
    let mut profile = Profile::blank("Test", "test");
    profile.sync.binds = true;
    profile.sync.settings = true;
    profile.binds = vec![
        Bind {
            key: String::new(),
            command: String::new(),
            sync: true,
        },
        Bind {
            key: "F".into(),
            command: "+use".into(),
            sync: true,
        },
    ];
    profile.convars.push(Setting {
        name: String::new(),
        value: String::new(),
        sync: true,
    });
    profile.file_mappings.push(FileMapping {
        path: String::new(),
        content: String::new(),
        sync: true,
    });
    validate_profile(&profile).unwrap();
    let plan = config_plan(
        &profile,
        &Plan::default(),
        &files("include( \"mainmenu.lua\" )\n"),
        &Vec::new(),
        "{}",
        "",
    )
    .unwrap();
    let cfg = plan.writes.iter().find(|x| x.relative == "cfg/gmm_active.cfg").unwrap();
    assert_eq!(cfg.content.lines().skip(1).collect::<Vec<_>>(), vec!["bind \"F\" \"+use\""]);
    profile.binds[0].command = "+jump".into();
    assert!(validate_profile(&profile).is_err(), "half-filled rows still validate");
}

#[test]
fn validation_messages_name_the_problem() {
    let mut profile = Profile::blank("Test", "test");
    profile.schema_version = 2;
    assert_eq!(validate_profile(&profile).unwrap_err(), "Unsupported profile schema version.");
    let mut profile = Profile::blank("Test", "Bad ID");
    assert_eq!(
        validate_profile(&profile).unwrap_err(),
        "Profile ID must contain lowercase letters, digits, or hyphens."
    );
    profile.id = "ok-1".into();
    profile.name = "   ".into();
    assert_eq!(validate_profile(&profile).unwrap_err(), "Profile needs a name.");
    let mut profile = Profile::blank("Test", "test");
    profile.binds.push(Bind { key: "  ".into(), command: "+use".into(), sync: true });
    assert_eq!(validate_profile(&profile).unwrap_err(), "Bind \"+use\" needs a key.");
    let mut profile = Profile::blank("Test", "test");
    profile.binds.push(Bind { key: "F;".into(), command: "+use".into(), sync: true });
    assert_eq!(validate_profile(&profile).unwrap_err(), "Bind for F; has an invalid key or command.");
    let mut profile = Profile::blank("Test", "test");
    profile.convars.push(Setting { name: "1bad".into(), value: "1".into(), sync: true });
    assert_eq!(validate_profile(&profile).unwrap_err(), "Setting \"1bad\" has an invalid name or value.");
    let mut profile = Profile::blank("Test", "test");
    profile.convars.push(Setting { name: "fov".into(), value: "1".into(), sync: true });
    profile.convars.push(Setting { name: "FOV".into(), value: "2".into(), sync: true });
    assert_eq!(validate_profile(&profile).unwrap_err(), "Duplicate synced setting: FOV");
    let mut profile = Profile::blank("Test", "test");
    profile.workshop.items.push(WorkshopItem { id: "12a".into(), title: None, available: true, manually_added: false });
    assert_eq!(validate_profile(&profile).unwrap_err(), "Invalid Workshop ID: 12a");
    let mut profile = Profile::blank("Test", "test");
    profile.file_mappings.push(FileMapping { path: "cfg/a.cfg".into(), content: "x".into(), sync: true });
    profile.file_mappings.push(FileMapping { path: "cfg/A.CFG".into(), content: "y".into(), sync: true });
    assert_eq!(validate_profile(&profile).unwrap_err(), "Duplicate synced config path: cfg/A.CFG");
    let mut profile = Profile::blank("Test", "test");
    profile.binds.push(Bind { key: "F".into(), command: "+use".into(), sync: true });
    profile.binds.push(Bind { key: "f".into(), command: "+attack".into(), sync: true });
    assert_eq!(validate_profile(&profile).unwrap_err(), "Duplicate synced key: f");
}

#[test]
fn mapped_paths_stay_in_allowed_folders() {
    assert_eq!(checked_mapping("cfg/my.cfg").unwrap(), "cfg/my.cfg");
    assert_eq!(checked_mapping("data/x/y.txt").unwrap(), "data/x/y.txt");
    assert_eq!(checked_mapping("/etc/passwd").unwrap_err(), "Unsafe config path: /etc/passwd");
    assert_eq!(checked_mapping("cfg/../x").unwrap_err(), "Unsafe config path: cfg/../x");
    assert_eq!(checked_mapping("./cfg/x").unwrap_err(), "Unsafe config path: ./cfg/x");
    assert_eq!(
        checked_mapping("lua/x.lua").unwrap_err(),
        "Config path must be under cfg/, data/, or settings/: lua/x.lua"
    );
    assert_eq!(
        checked_mapping("cfg").unwrap_err(),
        "Config path must be under cfg/, data/, or settings/: cfg"
    );
    assert_eq!(checked_mapping("cfg/Autoexec.CFG").unwrap_err(), "The manager owns this path: cfg/Autoexec.CFG");
}

#[test]
fn mapped_paths_split_at_both_separators() {
    assert_eq!(checked_mapping("cfg\\x.cfg").unwrap(), "cfg\\x.cfg");
    assert_eq!(checked_mapping("settings\\a\\b.txt").unwrap(), "settings\\a\\b.txt");
    assert_eq!(checked_mapping("cfg/./x.cfg").unwrap(), "cfg/./x.cfg");
    assert_eq!(
        checked_mapping("cfg/a\\..\\..\\lua\\x.lua").unwrap_err(),
        "Unsafe config path: cfg/a\\..\\..\\lua\\x.lua"
    );
    assert_eq!(checked_mapping("\\cfg\\x.cfg").unwrap_err(), "Unsafe config path: \\cfg\\x.cfg");
    assert_eq!(checked_mapping("C:cfg\\x.cfg").unwrap_err(), "Unsafe config path: C:cfg\\x.cfg");
    assert_eq!(checked_mapping(".\\cfg\\x.cfg").unwrap_err(), "Unsafe config path: .\\cfg\\x.cfg");
    assert_eq!(
        checked_mapping("lua\\x.lua").unwrap_err(),
        "Config path must be under cfg/, data/, or settings/: lua\\x.lua"
    );
    assert_eq!(
        checked_mapping("cfg\\").unwrap_err(),
        "Config path must be under cfg/, data/, or settings/: cfg\\"
    );
}
