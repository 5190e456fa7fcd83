use gmod_manager::idmap::IdMap;
use gmod_manager::library::{
    acf_times, can_optimize, copy_kind, folder_change, folder_name, optimized_entry, plan, prefer_copy, strong_level,
    unpacked_id, FolderChange, Library, LibraryEntry, Plan, SteamCopy,
};

fn ids(values: &[&str]) -> Vec<String> {
    values.iter().map(|s| s.to_string()).collect()
}

fn entry(time: u64) -> LibraryEntry {
    LibraryEntry {
        time_updated: time,
        ..Default::default()
    }
}

fn steam_copy(id: &str, time: u64) -> (String, SteamCopy) {
    (
        id.into(),
        SteamCopy {
            id: id.into(),
            path: String::new(),
            legacy: false,
            size: 1,
            time_updated: time,
        },
    )
}

fn map<V>(pairs: Vec<(String, V)>) -> IdMap<V> {
    let mut m = IdMap::new();
    for (k, v) in pairs {
        m.insert(k, v);
    }
    m
}

#[test]
fn plan_uses_steam_then_library_then_download() {
    let steam = map(vec![steam_copy("1", 10), steam_copy("9", 5), steam_copy("8", 5)]);
    let library = map(vec![
        ("1".to_string(), entry(9)),
        ("2".to_string(), entry(20)),
        ("3".to_string(), entry(1)),
        ("9".to_string(), entry(5)),
    ]);
    let installed = map(vec![("1".to_string(), 9), ("3".to_string(), 1), ("7".to_string(), 4)]);
    let latest = map(vec![("3".to_string(), 2)]);
    let plan = plan(&ids(&["1", "2", "3", "4", "1"]), &steam, &library, &installed, &latest, true);
    assert_eq!(plan.subscribe, ids(&["1", "3", "4"]));
    assert_eq!(plan.store, ids(&["1"]), "outdated library copy is refreshed");
    assert_eq!(plan.install, ids(&["2"]));
    assert_eq!(plan.uninstall, ids(&["1", "3", "7"]));
    assert_eq!(plan.unsubscribe, ids(&["9"]), "8 is not stored, so Steam keeps it");
}

#[test]
fn plan_skips_reinstall_of_current_copy_and_disabled_mode_uses_steam_only() {
    let library = map(vec![("2".to_string(), entry(20))]);
    let installed = map(vec![("2".to_string(), 20)]);
    let steam = map(vec![steam_copy("5", 1)]);
    let current = plan(&ids(&["2"]), &IdMap::new(), &library, &installed, &IdMap::new(), true);
    assert_eq!(current, Plan::default());
    let off = plan(&ids(&["2", "5"]), &steam, &library, &installed, &IdMap::new(), false);
    assert_eq!(off.subscribe, ids(&["2", "5"]));
    assert_eq!(off.uninstall, ids(&["2"]));
    assert!(off.store.is_empty() && off.install.is_empty() && off.unsubscribe.is_empty());
}

#[test]
fn library_names_and_files() {
    assert_eq!(folder_name("123"), "gmm_123");
    let library = Library { root: "lib".into(), entries: IdMap::new() };
    assert_eq!(library.file("77"), "lib/77.gma.zst");
    let library = Library { root: "lib/".into(), entries: IdMap::new() };
    assert_eq!(library.file("77"), "lib/77.gma.zst");
}

#[test]
fn only_small_unoptimized_copies_are_recompressed() {
    let mut e = LibraryEntry { raw_size: 100, ..Default::default() };
    assert!(can_optimize(&e));
    e.optimized = true;
    assert!(!can_optimize(&e));
    e.optimized = false;
    e.raw_size = 0;
    assert!(!can_optimize(&e));
    e.raw_size = 64 * 1024 * 1024 + 1;
    assert!(!can_optimize(&e));
}

#[test]
fn acf_times_read_only_installed_items() {
    let text = "\"AppWorkshop\"\n{\n\t\"WorkshopItemsInstalled\"\n\t{\n\t\t\"11\"\n\t\t{\n\t\t\t\"size\"\t\t\"5\"\n\t\t\t\"timeupdated\"\t\t\"123\"\n\t\t}\n\t\t\"22\"\n\t\t{\n\t\t\t\"TimeUpdated\"\t\t\"456\"\n\t\t}\n\t}\n\t\"WorkshopItemDetails\"\n\t{\n\t\t\"33\"\n\t\t{\n\t\t\t\"timeupdated\"\t\t\"789\"\n\t\t}\n\t}\n}\n";
    let times = acf_times(text);
    assert_eq!(times.len(), 2);
    assert_eq!(*times.get("11").unwrap(), 123);
    assert_eq!(*times.get("22").unwrap(), 456);
    assert!(times.get("33").is_none());
}

#[test]
fn library_folder_changes_never_merge_two_libraries() {
    assert_eq!(folder_change(false, true, true), FolderChange::Move);
    assert_eq!(folder_change(false, false, false), FolderChange::Switch);
    assert_eq!(folder_change(true, false, false), FolderChange::Switch);
    assert_eq!(folder_change(true, true, false), FolderChange::Switch);
    assert_eq!(folder_change(true, true, true), FolderChange::Refuse);
}

#[test]
fn download_folders_are_read_as_the_library_expects() {
    assert_eq!(copy_kind("ADDON.GMA"), Some(false));
    assert_eq!(copy_kind("123_legacy.BIN"), Some(true));
    assert_eq!(copy_kind("notes.txt"), None);
    assert_eq!(copy_kind("gma"), None);
    assert!(prefer_copy(None, true));
    assert!(prefer_copy(Some(true), false));
    assert!(!prefer_copy(Some(false), true));
    assert!(!prefer_copy(Some(true), true));
    let small = SteamCopy { id: "1".into(), path: String::new(), legacy: false, size: 100, time_updated: 0 };
    assert!(strong_level(&small));
    assert!(!strong_level(&SteamCopy { legacy: true, ..small.clone() }));
    assert!(!strong_level(&SteamCopy { size: 67_108_865, ..small }));
    let entry = LibraryEntry { title: "T".into(), time_updated: 5, raw_size: 300, stored_size: 200, optimized: false };
    let (better, replace, saved) = optimized_entry(&entry, 150, 200);
    assert_eq!((better.stored_size, better.optimized, replace, saved), (150, true, true, 50));
    assert_eq!((better.title.as_str(), better.time_updated, better.raw_size), ("T", 5, 300));
    let (same, replace, saved) = optimized_entry(&entry, 250, 200);
    assert_eq!((same.stored_size, same.optimized, replace, saved), (200, true, false, 0));
    assert_eq!(unpacked_id(&folder_name("123")), Some("123".to_string()));
    assert_eq!(unpacked_id("gmm_12a"), None);
    assert_eq!(unpacked_id("gmm_"), None);
    assert_eq!(unpacked_id("other_1"), None);
}
