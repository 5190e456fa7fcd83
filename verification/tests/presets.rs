use gmod_manager::details::WorkshopSearchItem;
use gmod_manager::idmap::IdMap;
use gmod_manager::model::{Profile, WorkshopItem};
use gmod_manager::presets::{
    add_items, added_items, added_message, free_suffix, new_preset_id, preset_slug, refresh_message,
    rename_import,
};
use gmod_manager::workshop::ItemMeta;

fn ids(values: &[&str]) -> Vec<String> {
    values.iter().map(|s| s.to_string()).collect()
}

fn item(id: &str) -> WorkshopItem {
    WorkshopItem { id: id.into(), title: None, available: true, manually_added: true }
}

#[test]
fn slugs_keep_ascii_words() {
    assert_eq!(preset_slug("My Preset!"), "my-preset");
    assert_eq!(preset_slug("  --Hello__World--  "), "hello-world");
    assert_eq!(preset_slug("!!!"), "preset");
    assert_eq!(preset_slug("Ünïcode 2"), "n-code-2");
    assert_eq!(preset_slug("TTT 2024"), "ttt-2024");
}

#[test]
fn new_presets_get_the_first_free_id() {
    assert_eq!(new_preset_id(" My Preset ", &Vec::new()), Some(("my-preset".to_string(), "My Preset".to_string())));
    assert_eq!(new_preset_id("My Preset", &ids(&["my-preset"])).unwrap().0, "my-preset-2");
    assert_eq!(new_preset_id("My Preset", &ids(&["my-preset", "my-preset-2", "x"])).unwrap().0, "my-preset-3");
    assert_eq!(new_preset_id("My Preset", &ids(&["my-preset-2"])).unwrap().0, "my-preset");
    assert_eq!(new_preset_id("   ", &Vec::new()), None);
    assert_eq!(free_suffix("a", &ids(&["a", "a-2", "a-3", "a-5"])), Some(4));
    assert_eq!(free_suffix("a", &ids(&["a-2"])), None);
}

#[test]
fn imports_with_a_taken_id_are_numbered() {
    let mut profile = Profile::blank("Test", "test");
    rename_import(&mut profile, &ids(&["other"]));
    assert_eq!((profile.id.as_str(), profile.name.as_str()), ("test", "Test"));
    rename_import(&mut profile, &ids(&["test", "test-2"]));
    assert_eq!((profile.id.as_str(), profile.name.as_str()), ("test-3", "Test (3)"));
}

#[test]
fn a_mod_comes_with_what_it_requires() {
    let hit = WorkshopSearchItem { id: "10".into(), meta: ItemMeta { title: "Portal mod".into(), ..Default::default() } };
    let mut meta = IdMap::new();
    meta.insert("11".to_string(), ItemMeta { title: "Base".into(), ..Default::default() });
    let items = added_items(&hit, &ids(&["11", "12"]), &meta);
    assert_eq!(items.len(), 3);
    assert_eq!((items[0].id.as_str(), items[0].title.as_deref()), ("10", Some("Portal mod")));
    assert_eq!((items[1].id.as_str(), items[1].title.as_deref()), ("11", Some("Base")));
    assert_eq!((items[2].id.as_str(), items[2].title.as_deref()), ("12", None));
    assert!(items.iter().all(|i| i.available && i.manually_added));
}

#[test]
fn adding_skips_mods_the_preset_has() {
    let mut profile = Profile::blank("Test", "test");
    profile.sync.addons = false;
    profile.workshop.items.push(item("1"));
    let count = add_items(&mut profile, vec![item("2"), item("1"), item("3"), item("3")]);
    assert_eq!(count, 2);
    let present: Vec<&str> = profile.workshop.items.iter().map(|i| i.id.as_str()).collect();
    assert_eq!(present, ["1", "2", "3"]);
    assert!(profile.sync.addons);
    profile.sync.addons = false;
    assert_eq!(add_items(&mut profile, vec![item("2")]), 0);
    assert!(!profile.sync.addons);
    assert_eq!(added_message(2), "Added 2 mods; Steam downloads missing mods on Play.");
    assert_eq!(added_message(1), "Added 1 mod; Steam downloads missing mods on Play.");
    assert_eq!(added_message(0), "Added 0 mods; Steam downloads missing mods on Play.");
}

#[test]
fn refresh_reports_changes() {
    assert_eq!(refresh_message(0, 0), "Collection is unchanged.");
    assert_eq!(refresh_message(3, 0), "Collection updated: 3 added, 0 removed.");
    assert_eq!(refresh_message(1, 12), "Collection updated: 1 added, 12 removed.");
}
