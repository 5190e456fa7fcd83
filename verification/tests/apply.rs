use gmod_manager::apply::{
    add_change, addon_changes, addon_plan, backup_records, check_current, item_title, latest_times,
    review_lines, up_to_date, AddonChanges, Change, Preview,
};
use gmod_manager::config::{addon_preset, addon_presets_text, config_plan, manage_addons, merge_addon_preset, ConfigFiles};
use gmod_manager::idmap::IdMap;
use gmod_manager::json::Json;
use gmod_manager::library::{plan, Library, LibraryEntry, Plan, SteamCopy};
use gmod_manager::model::{Bind, Profile, Setting, WorkshopItem};
use gmod_manager::preview::menu_catalog;
use gmod_manager::workshop::ItemMeta;
use std::collections::HashMap;

fn ids(values: &[&str]) -> Vec<String> {
    values.iter().map(|s| s.to_string()).collect()
}

fn map<V>(pairs: Vec<(&str, V)>) -> IdMap<V> {
    let mut m = IdMap::new();
    for (k, v) in pairs {
        m.insert(k.to_string(), v);
    }
    m
}

fn meta(time: u64) -> ItemMeta {
    ItemMeta { time_updated: time, available: true, ..Default::default() }
}

#[test]
fn changes_are_recorded_only_where_the_file_differs() {
    let mut preview = Preview::default();
    add_change(&mut preview, "cfg/a.cfg", Some(b"x".to_vec()), b"x".to_vec());
    assert!(preview.changes.is_empty());
    add_change(&mut preview, "cfg/b.cfg", None, b"new".to_vec());
    add_change(&mut preview, "cfg/c.cfg", Some(b"old".to_vec()), b"new".to_vec());
    let names: Vec<&str> = preview.changes.iter().map(|c| c.relative.as_str()).collect();
    assert_eq!(names, ["cfg/b.cfg", "cfg/c.cfg"]);
    assert_eq!(preview.changes[0].before, None);
    assert_eq!(preview.changes[1].before.as_deref(), Some(&b"old"[..]));
    assert_eq!(preview.changes[1].after, b"new");
    assert!(preview.notes.is_empty());
}

#[test]
fn a_file_changed_since_the_preview_stops_the_apply() {
    let change = Change { relative: "cfg/autoexec.cfg".into(), before: Some(b"echo original\n".to_vec()), after: Vec::new() };
    assert!(check_current(&change, &Some(b"echo original\n".to_vec())).is_ok());
    assert_eq!(
        check_current(&change, &Some(b"echo newer\n".to_vec())).unwrap_err(),
        "cfg/autoexec.cfg changed in the meantime. Try again."
    );
    assert!(check_current(&change, &None).is_err());
    let created = Change { relative: "cfg/gmm_active.cfg".into(), before: None, after: b"x".to_vec() };
    assert!(check_current(&created, &None).is_ok());
    assert_eq!(
        check_current(&created, &Some(Vec::new())).unwrap_err(),
        "cfg/gmm_active.cfg changed in the meantime. Try again."
    );
}

#[test]
fn nothing_to_do_is_up_to_date() {
    let mut preview = Preview::default();
    let mut addons = AddonChanges::default();
    assert!(up_to_date(&preview, &addons));
    addons.removed.push("1".into());
    assert!(!up_to_date(&preview, &addons));
    addons.removed.clear();
    add_change(&mut preview, "cfg/b.cfg", None, b"new".to_vec());
    assert!(!up_to_date(&preview, &addons));
}

#[test]
fn undo_record_keeps_what_the_apply_really_changed() {
    let plan = Plan { install: ids(&["1", "2"]), uninstall: ids(&["3", "4"]), ..Default::default() };
    let before = map(vec![("2", 5u64), ("3", 7u64)]);
    let changes = addon_changes(&plan, &before, true);
    assert_eq!(changes.installed, ids(&["1"]));
    assert_eq!(changes.removed, ids(&["3"]));
    let off = addon_changes(&plan, &before, false);
    assert!(off.installed.is_empty());
    assert_eq!(off.removed, ids(&["3"]));
}

#[test]
fn progress_names_mods_by_title() {
    let mut profile = Profile::blank("Test", "test");
    profile.workshop.items.push(WorkshopItem { id: "1".into(), title: Some("Portal mod".into()), available: true, manually_added: false });
    profile.workshop.items.push(WorkshopItem { id: "2".into(), title: None, available: true, manually_added: false });
    profile.workshop.items.push(WorkshopItem { id: "1".into(), title: Some("Later".into()), available: true, manually_added: false });
    assert_eq!(item_title(&profile, "1"), "Portal mod");
    assert_eq!(item_title(&profile, "2"), "2");
    assert_eq!(item_title(&profile, "3"), "3");
}

#[test]
fn only_known_update_times_count() {
    let latest = latest_times(&map(vec![("1", meta(0)), ("2", meta(30)), ("3", meta(4))]));
    assert_eq!(latest.len(), 2);
    assert_eq!(latest.get("1"), None);
    assert_eq!(latest.get("2"), Some(&30));
    assert_eq!(latest.get("3"), Some(&4));
}

#[test]
fn addon_plan_covers_the_available_mods() {
    let mut profile = Profile::blank("Test", "test");
    profile.workshop.items.push(WorkshopItem { id: "1".into(), title: None, available: true, manually_added: false });
    profile.workshop.items.push(WorkshopItem { id: "2".into(), title: None, available: false, manually_added: false });
    profile.workshop.items.push(WorkshopItem { id: "3".into(), title: None, available: true, manually_added: false });
    let steam = map(vec![(
        "1",
        SteamCopy { id: "1".into(), path: String::new(), legacy: false, size: 1, time_updated: 10 },
    )]);
    let library = Library {
        root: "library".into(),
        entries: map(vec![("3", LibraryEntry { time_updated: 20, ..Default::default() })]),
    };
    let unpacked = map(vec![("9", 1u64)]);
    let details = map(vec![("1", meta(10)), ("3", meta(20))]);
    let with_library = addon_plan(&profile, &steam, Some(&library), &unpacked, &details);
    let expected = plan(&ids(&["1", "3"]), &steam, &library.entries, &unpacked, &latest_times(&details), true);
    assert_eq!(with_library, expected);
    assert_eq!(with_library.install, ids(&["3"]));
    assert_eq!(with_library.uninstall, ids(&["9"]));
    let steam_only = addon_plan(&profile, &steam, None, &unpacked, &details);
    assert_eq!(steam_only, plan(&ids(&["1", "3"]), &steam, &IdMap::new(), &unpacked, &latest_times(&details), false));
    profile.sync.addons = false;
    assert_eq!(addon_plan(&profile, &steam, Some(&library), &unpacked, &details), Plan::default());
}

#[test]
fn addon_preset_entry_names_the_preset_and_its_mods() {
    let (title, entry) = addon_preset("Test", &ids(&["123456789", "5"]));
    assert_eq!(title, "GMM · Test");
    let Json::Object(members) = entry else { panic!("entry is an object") };
    let keys: Vec<&str> = members.iter().map(|(k, _)| k.as_str()).collect();
    assert_eq!(keys, ["disabled", "enabled", "name", "newAction"]);
    assert!(matches!(&members[0].1, Json::Array(a) if a.is_empty()));
    match &members[1].1 {
        Json::Array(a) => {
            assert_eq!(a.len(), 2);
            assert!(matches!(&a[0], Json::Str(s) if s == "123456789"));
            assert!(matches!(&a[1], Json::Str(s) if s == "5"));
        }
        _ => panic!("enabled is an array"),
    }
    assert!(matches!(&members[2].1, Json::Str(s) if s == "GMM · Test"));
    assert!(matches!(&members[3].1, Json::Str(s) if s.is_empty()));
}

#[test]
fn merging_replaces_the_preset_and_keeps_the_others() {
    let existing = vec![
        ("My preset".to_string(), Json::Float("1.5".into())),
        ("GMM · Test".to_string(), Json::Str("old".into())),
        ("Other".to_string(), Json::UInt(7)),
    ];
    let merged = merge_addon_preset(existing, "Test", &ids(&["5"]));
    let keys: Vec<&str> = merged.iter().map(|(k, _)| k.as_str()).collect();
    assert_eq!(keys, ["My preset", "GMM · Test", "Other"]);
    assert!(matches!(&merged[0].1, Json::Float(t) if t == "1.5"));
    assert!(matches!(&merged[2].1, Json::UInt(7)));
    let Json::Object(entry) = &merged[1].1 else { panic!("entry is an object") };
    assert!(matches!(&entry[2].1, Json::Str(s) if s == "GMM · Test"));
    let again = merge_addon_preset(merged, "Test", &ids(&["5"]));
    assert_eq!(again.len(), 3);
}

#[test]
fn merging_adds_a_missing_preset_at_the_end() {
    let merged = merge_addon_preset(vec![("A".to_string(), Json::Null)], "New", &ids(&[]));
    let keys: Vec<&str> = merged.iter().map(|(k, _)| k.as_str()).collect();
    assert_eq!(keys, ["A", "GMM · New"]);
    assert!(matches!(&merged[0].1, Json::Null));
    let merged = merge_addon_preset(Vec::new(), "New", &ids(&["1"]));
    assert_eq!(merged.len(), 1);
    assert_eq!(merged[0].0, "GMM · New");
}

#[test]
fn undo_from_the_backup_puts_the_files_back() {
    let mut files: HashMap<String, Vec<u8>> = HashMap::new();
    files.insert("cfg/autoexec.cfg".into(), b"echo original\n".to_vec());
    files.insert("lua/menu/menu.lua".into(), b"menu".to_vec());
    let original = files.clone();
    let mut preview = Preview::default();
    for (path, after) in [
        ("cfg/autoexec.cfg", &b"echo original\nexec gmm_active.cfg\n"[..]),
        ("cfg/gmm_active.cfg", &b"bind q +use\n"[..]),
        ("lua/menu/menu.lua", &b"menu"[..]),
    ] {
        add_change(&mut preview, path, files.get(path).cloned(), after.to_vec());
    }
    assert_eq!(preview.changes.len(), 2);
    let records = backup_records(&preview);
    let saved: Vec<Option<Vec<u8>>> = preview.changes.iter().map(|c| c.before.clone()).collect();
    for change in &preview.changes {
        files.insert(change.relative.clone(), change.after.clone());
    }
    assert_ne!(files, original);
    for (record, before) in records.iter().zip(saved) {
        assert_eq!(record.existed, before.is_some());
        match before {
            Some(b) => {
                files.insert(record.relative.clone(), b);
            }
            None => {
                files.remove(&record.relative);
            }
        }
    }
    assert_eq!(files, original);
}

#[test]
fn backup_records_write_paths_with_slashes() {
    let mut preview = Preview::default();
    add_change(&mut preview, "cfg\\extra.cfg", None, b"x".to_vec());
    add_change(&mut preview, "cfg/autoexec.cfg", Some(b"a".to_vec()), b"b".to_vec());
    let records = backup_records(&preview);
    assert_eq!(records.len(), 2);
    assert_eq!((records[0].relative.as_str(), records[0].existed), ("cfg/extra.cfg", false));
    assert_eq!((records[1].relative.as_str(), records[1].existed), ("cfg/autoexec.cfg", true));
}

#[test]
fn the_review_counts_library_work_and_lists_files() {
    let steam = {
        let mut m = IdMap::new();
        m.insert("1".to_string(), SteamCopy { id: "1".into(), path: String::new(), legacy: false, size: 1, time_updated: 1 });
        m
    };
    let plan = Plan {
        store: ids(&["1"]),
        install: ids(&["2", "3"]),
        subscribe: ids(&["1", "4", "5"]),
        unsubscribe: ids(&["6"]),
        ..Default::default()
    };
    let mut preview = Preview::default();
    preview.notes.push("Turns 1 disabled mods back on.".into());
    add_change(&mut preview, "cfg/autoexec.cfg", Some(b"a".to_vec()), b"b".to_vec());
    add_change(&mut preview, "cfg\\gmm_active.cfg", None, b"c".to_vec());
    assert_eq!(
        review_lines(&plan, &steam, &preview),
        [
            "1 mods compressed into the library",
            "2 mods unpacked from the library",
            "2 mods downloaded by Steam",
            "1 mods dropped from Steam (kept in library)",
            "Turns 1 disabled mods back on.",
            "Files",
            "cfg/autoexec.cfg  ·  edit",
            "cfg/gmm_active.cfg  ·  new",
        ]
    );
    assert_eq!(review_lines(&Plan::default(), &steam, &Preview::default()), ["Nothing to change."]);
}

const MENU: &str = "include( \"mainmenu.lua\" )\n";

fn fake_game() -> HashMap<String, Vec<u8>> {
    let mut files = HashMap::new();
    files.insert("lua/menu/menu.lua".to_string(), MENU.as_bytes().to_vec());
    files
}

/// What an apply of `profile` would change in the files, as the app builds its preview.
fn preview_for(profile: &Profile, files: &HashMap<String, Vec<u8>>) -> Preview {
    let plan = addon_plan(profile, &IdMap::new(), None, &IdMap::new(), &IdMap::new());
    let text = |p: &str| files.get(p).map(|b| String::from_utf8(b.clone()).unwrap());
    let mut preview = Preview::default();
    if manage_addons(profile, &plan) {
        let rel = "settings/addonpresets.txt";
        let out = addon_presets_text(files.get(rel).map(|b| b.as_slice()), &profile.name, &plan.subscribe).unwrap();
        add_change(&mut preview, rel, files.get(rel).cloned(), out);
    }
    let config = ConfigFiles {
        menu: text("lua/menu/menu.lua"),
        menu_path: "garrysmod/lua/menu/menu.lua".into(),
        nomount: text("cfg/addonnomount.txt"),
        autoexec: text("cfg/autoexec.cfg").unwrap_or_default(),
    };
    let (catalog_ids, _) = menu_catalog(profile, &IdMap::new());
    let plan_writes = config_plan(profile, &plan, &config, &catalog_ids, "{}", "").unwrap();
    for write in plan_writes.writes {
        add_change(&mut preview, &write.relative, files.get(&write.relative).cloned(), write.content.into_bytes());
    }
    preview.notes.extend(plan_writes.notes);
    preview
}

/// Applies a preview as the app does: nothing is written unless every file still holds what
/// the preview saw. Returns the backup an undo needs.
fn apply(files: &mut HashMap<String, Vec<u8>>, preview: &Preview) -> Result<Vec<(String, Option<Vec<u8>>)>, String> {
    for change in &preview.changes {
        check_current(change, &files.get(&change.relative).cloned())?;
    }
    let backup: Vec<(String, Option<Vec<u8>>)> = backup_records(preview)
        .into_iter()
        .zip(&preview.changes)
        .map(|(record, change)| (record.relative, if record.existed { change.before.clone() } else { None }))
        .collect();
    for change in &preview.changes {
        files.insert(change.relative.clone(), change.after.clone());
    }
    Ok(backup)
}

fn undo(files: &mut HashMap<String, Vec<u8>>, backup: Vec<(String, Option<Vec<u8>>)>) {
    for (relative, saved) in backup {
        match saved {
            Some(bytes) => {
                files.insert(relative, bytes);
            }
            None => {
                files.remove(&relative);
            }
        }
    }
}

#[test]
fn selective_sync_and_restore() {
    let mut game = fake_game();
    game.insert("cfg/autoexec.cfg".into(), b"echo original\n".to_vec());
    let mut profile = Profile::blank("Test", "test");
    profile.sync.binds = true;
    profile.sync.settings = true;
    profile.binds = vec![Bind { key: "Q".into(), command: "+use".into(), sync: true }];
    profile.convars = vec![
        Setting { name: "fov_desired".into(), value: "90".into(), sync: false },
        Setting { name: "sensitivity".into(), value: "2".into(), sync: true },
    ];
    let preview = preview_for(&profile, &game);
    assert_eq!(preview.changes.len(), 2);
    let cfg = preview.changes.iter().find(|x| x.relative == "cfg/gmm_active.cfg").unwrap();
    let output = String::from_utf8_lossy(&cfg.after);
    assert!(output.contains("bind \"Q\" \"+use\""));
    assert!(output.contains("sensitivity \"2\""));
    assert!(!output.contains("fov_desired"));
    let backup = apply(&mut game, &preview).unwrap();
    assert!(game.contains_key("cfg/gmm_active.cfg"));
    undo(&mut game, backup);
    assert_eq!(game.get("cfg/autoexec.cfg").unwrap(), b"echo original\n");
    assert!(!game.contains_key("cfg/gmm_active.cfg"));
}

#[test]
fn merges_addon_preset_and_preserves_other_disabled_ids() {
    let mut game = fake_game();
    game.insert(
        "settings/addonpresets.txt".into(),
        br#"{"My preset":{"name":"My preset","enabled":["777"],"disabled":[],"newAction":""}}"#.to_vec(),
    );
    game.insert("cfg/addonnomount.txt".into(), b"\"123456789\"\n\"888888888\"\n".to_vec());
    let mut profile = Profile::blank("Test", "test");
    profile.workshop.items.push(WorkshopItem { id: "123456789".into(), title: None, available: true, manually_added: false });
    profile.workshop.items.push(WorkshopItem { id: "999999999".into(), title: None, available: false, manually_added: false });
    let preview = preview_for(&profile, &game);
    let preset = preview.changes.iter().find(|x| x.relative == "settings/addonpresets.txt").unwrap();
    let json: serde_json::Value = serde_json::from_slice(&preset.after).unwrap();
    assert_eq!(json["My preset"]["enabled"][0], "777");
    assert_eq!(json["GMM · Test"]["enabled"][0], "123456789");
    assert_eq!(json["GMM · Test"]["enabled"].as_array().unwrap().len(), 1);
    let disabled = preview.changes.iter().find(|x| x.relative == "cfg/addonnomount.txt").unwrap();
    assert_eq!(String::from_utf8_lossy(&disabled.after), "\"888888888\"\n");
    let menu = preview.changes.iter().find(|x| x.relative == "lua/menu/menu.lua").unwrap();
    assert!(String::from_utf8_lossy(&menu.after).contains("include( \"gmm_workshop.lua\" )"));
    let script = preview.changes.iter().find(|x| x.relative == "lua/menu/gmm_workshop.lua").unwrap();
    let script = String::from_utf8_lossy(&script.after);
    assert!(script.contains("steamworks.Subscribe(id)"));
    assert!(script.contains("123456789"));
    assert!(!script.contains("999999999"));
}

#[test]
fn stale_preview_does_not_overwrite_newer_game_config() {
    let mut game = fake_game();
    game.insert("cfg/autoexec.cfg".into(), b"echo original\n".to_vec());
    let mut profile = Profile::blank("Test", "test");
    profile.sync.binds = true;
    profile.binds.push(Bind { key: "F".into(), command: "+use".into(), sync: true });
    let preview = preview_for(&profile, &game);
    game.insert("cfg/autoexec.cfg".into(), b"echo newer\n".to_vec());
    assert!(apply(&mut game, &preview).is_err());
    assert_eq!(game.get("cfg/autoexec.cfg").unwrap(), b"echo newer\n");
}

#[test]
fn a_second_apply_changes_nothing() {
    let mut game = fake_game();
    game.insert("cfg/autoexec.cfg".into(), b"echo original".to_vec());
    game.insert("cfg/addonnomount.txt".into(), b"\"123456789\"\r\n\"888888888\"\n".to_vec());
    game.insert(
        "settings/addonpresets.txt".into(),
        br#"{"My preset":{"name":"My preset","enabled":["777"],"disabled":[],"newAction":""}}"#.to_vec(),
    );
    let mut profile = Profile::blank("Test", "test");
    profile.sync.binds = true;
    profile.sync.settings = true;
    profile.binds = vec![Bind { key: "F".into(), command: "+use".into(), sync: true }];
    profile.convars = vec![Setting { name: "sensitivity".into(), value: "2".into(), sync: true }];
    profile.file_mappings = vec![gmod_manager::model::FileMapping {
        path: "cfg\\my.cfg".into(),
        content: "echo mine".into(),
        sync: true,
    }];
    profile.workshop.items.push(WorkshopItem { id: "123456789".into(), title: None, available: true, manually_added: false });
    let first = preview_for(&profile, &game);
    assert!(!first.changes.is_empty());
    apply(&mut game, &first).unwrap();
    let second = preview_for(&profile, &game);
    let changed: Vec<&str> = second.changes.iter().map(|c| c.relative.as_str()).collect();
    assert!(changed.is_empty(), "{changed:?}");
}

#[test]
fn addon_presets_file_is_merged_and_printed() {
    let existing = br#"{"My preset":{"name":"My preset","enabled":["777"],"disabled":[],"newAction":""}}"#;
    let out = addon_presets_text(Some(existing), "Test", &ids(&["5"])).unwrap();
    let text = String::from_utf8(out).unwrap();
    assert!(text.ends_with("}\n"));
    let value: serde_json::Value = serde_json::from_str(&text).unwrap();
    assert_eq!(value["My preset"]["enabled"][0], "777");
    assert_eq!(value["GMM · Test"]["enabled"][0], "5");
    assert_eq!(value["GMM · Test"]["name"], "GMM · Test");
    let fresh = String::from_utf8(addon_presets_text(None, "New", &ids(&[])).unwrap()).unwrap();
    assert_eq!(
        fresh,
        "{\n  \"GMM · New\": {\n    \"disabled\": [],\n    \"enabled\": [],\n    \"name\": \"GMM · New\",\n    \"newAction\": \"\"\n  }\n}\n"
    );
    let again = addon_presets_text(Some(text.as_bytes()), "Test", &ids(&["5"])).unwrap();
    assert_eq!(String::from_utf8(again).unwrap(), text);
}

#[test]
fn unreadable_addon_presets_are_refused() {
    let err = addon_presets_text(Some(b"[1, 2]"), "Test", &ids(&[])).unwrap_err();
    assert!(err.starts_with("Existing addon presets could not be parsed: invalid type"), "{err}");
    let err = addon_presets_text(Some(b"{"), "Test", &ids(&[])).unwrap_err();
    assert!(err.starts_with("Existing addon presets could not be parsed: "), "{err}");
}
