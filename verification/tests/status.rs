use gmod_manager::idmap::IdMap;
use gmod_manager::library::{LibraryEntry, SteamCopy};
use gmod_manager::model::{Profile, WorkshopItem};
use gmod_manager::status::{
    entry_status, library_totals, meta_wanted, mod_state, preset_meta, preset_size, preset_uses, size_text,
    store_candidates, title_of, uses_label, ModState, listed_with, mod_filter, mod_listed,
};
use gmod_manager::workshop::ItemMeta;

fn item(id: &str, title: Option<&str>, available: bool) -> WorkshopItem {
    WorkshopItem { id: id.into(), title: title.map(str::to_string), available, manually_added: false }
}

fn map<V>(pairs: Vec<(&str, V)>) -> IdMap<V> {
    let mut m = IdMap::new();
    for (k, v) in pairs {
        m.insert(k.to_string(), v);
    }
    m
}

fn meta(title: &str, size: u64, creator: &str, available: bool) -> ItemMeta {
    ItemMeta { title: title.into(), size, creator: creator.into(), available, ..Default::default() }
}

fn copy(id: &str) -> SteamCopy {
    SteamCopy { id: id.into(), path: String::new(), legacy: false, size: 1, time_updated: 1 }
}

#[test]
fn mod_state_prefers_steam_then_unpacked_then_library() {
    let steam = map(vec![("1", copy("1"))]);
    let unpacked = map(vec![("1", 1u64), ("2", 1u64)]);
    let library = map(vec![("2", LibraryEntry::default()), ("3", LibraryEntry::default())]);
    let state = |i: &WorkshopItem| mod_state(i, &steam, &unpacked, &library);
    assert_eq!(state(&item("1", None, false)), ModState::Unavailable);
    assert_eq!(state(&item("1", None, true)), ModState::Steam);
    assert_eq!(state(&item("2", None, true)), ModState::Unpacked);
    assert_eq!(state(&item("3", None, true)), ModState::Library);
    assert_eq!(state(&item("4", None, true)), ModState::Missing);
    assert_eq!(ModState::Unavailable.describe(), "Removed from Workshop");
    assert_eq!(ModState::Steam.describe(), "Installed");
    assert_eq!(ModState::Unpacked.describe(), "Installed from library");
    assert_eq!(ModState::Library.describe(), "In library");
    assert_eq!(ModState::Missing.describe(), "Downloads on launch");
}

#[test]
fn titles_fall_back_to_steam_then_unknown() {
    let cache = map(vec![("2", meta("Steam title", 0, "", true)), ("3", meta("", 0, "", true))]);
    assert_eq!(title_of(&item("1", Some("Own"), true), &cache), "Own");
    assert_eq!(title_of(&item("2", Some(""), true), &cache), "Steam title");
    assert_eq!(title_of(&item("2", None, true), &cache), "Steam title");
    assert_eq!(title_of(&item("3", None, true), &cache), "Unknown item");
    assert_eq!(title_of(&item("4", None, true), &cache), "Unknown item");
}

#[test]
fn preset_size_counts_available_mods_and_notes_gaps() {
    let mut profile = Profile::blank("Test", "test");
    let cache = map(vec![("1", meta("", 1000, "", true)), ("2", meta("", 15_023_403, "", true)), ("3", meta("", 5, "", true))]);
    assert_eq!(preset_size(&profile, &cache), (0, true));
    assert_eq!(size_text(&profile, &cache), "—");
    profile.workshop.items.push(item("1", None, true));
    profile.workshop.items.push(item("3", None, false));
    assert_eq!(preset_size(&profile, &cache), (1000, true));
    assert_eq!(size_text(&profile, &cache), "1000 B");
    profile.workshop.items.push(item("2", None, true));
    profile.workshop.items.push(item("9", None, true));
    assert_eq!(preset_size(&profile, &cache), (15_024_403, false));
    assert_eq!(size_text(&profile, &cache), "14.3 MB+");
}

#[test]
fn preset_meta_keeps_the_presets_mods() {
    let mut profile = Profile::blank("Test", "test");
    profile.workshop.items.push(item("1", None, true));
    profile.workshop.items.push(item("4", None, true));
    let cache = map(vec![("1", meta("One", 1, "", true)), ("2", meta("Two", 2, "", true))]);
    let picked = preset_meta(&profile, &cache);
    assert_eq!(picked.len(), 1);
    assert_eq!(picked.get("1").unwrap().title, "One");
    assert!(picked.get("2").is_none());
}

#[test]
fn details_are_fetched_once_for_mods_missing_them() {
    let mut a = Profile::blank("A", "a");
    a.workshop.items.push(item("5", None, true));
    a.workshop.items.push(item("1", None, true));
    a.workshop.items.push(item("2", None, true));
    let mut b = Profile::blank("B", "b");
    b.workshop.items.push(item("3", None, true));
    b.workshop.items.push(item("5", None, true));
    b.workshop.items.push(item("4", None, true));
    let cache = map(vec![
        ("1", meta("Known", 1, "76561198027025876", true)),
        ("2", meta("Gone", 0, "", false)),
        ("3", meta("No uploader", 1, "", true)),
    ]);
    let wanted = meta_wanted(&vec![a.clone(), b.clone()], &cache, &Vec::new());
    assert_eq!(wanted, ["3", "4", "5"]);
    let asked = meta_wanted(&vec![a, b], &cache, &vec!["4".to_string()]);
    assert_eq!(asked, ["3", "5"]);
}

#[test]
fn store_all_takes_installed_mods_the_library_lacks() {
    let mut a = Profile::blank("A", "a");
    a.workshop.items.push(item("3", Some("Three"), true));
    a.workshop.items.push(item("1", Some("One"), true));
    a.workshop.items.push(item("2", None, false));
    let mut b = Profile::blank("B", "b");
    b.workshop.items.push(item("1", Some("Uno"), true));
    b.workshop.items.push(item("4", None, true));
    b.workshop.items.push(item("5", None, true));
    let mut steam_copies = Vec::new();
    for (id, time) in [("1", 10u64), ("2", 10), ("3", 10), ("4", 10)] {
        steam_copies.push((id, SteamCopy { id: id.into(), path: String::new(), legacy: false, size: 1, time_updated: time }));
    }
    let steam = map(steam_copies);
    let library = map(vec![
        ("3", LibraryEntry { time_updated: 10, ..Default::default() }),
        ("4", LibraryEntry { time_updated: 9, ..Default::default() }),
    ]);
    let cache = map(vec![("4", meta("Four", 1, "", true))]);
    let list = store_candidates(&vec![a, b], &steam, &library, &cache);
    let pairs: Vec<(&str, &str)> = list.iter().map(|(i, t)| (i.as_str(), t.as_str())).collect();
    assert_eq!(pairs, [("1", "Uno"), ("4", "Four")]);
}

#[test]
fn library_rows_say_where_a_mod_is_and_who_uses_it() {
    let unpacked = map(vec![("1", 1u64)]);
    let steam = map(vec![("1", copy("1")), ("2", copy("2"))]);
    assert_eq!(entry_status("1", &unpacked, &steam), "Installed from library");
    assert_eq!(entry_status("2", &unpacked, &steam), "Also installed by Steam");
    assert_eq!(entry_status("3", &unpacked, &steam), "Compressed");
    let mut a = Profile::blank("A", "a");
    a.workshop.items.push(item("1", None, true));
    a.workshop.items.push(item("2", None, true));
    let mut b = Profile::blank("B", "b");
    b.workshop.items.push(item("1", None, false));
    let profiles = vec![a, b];
    assert_eq!(preset_uses(&profiles, "1"), 2);
    assert_eq!(preset_uses(&profiles, "2"), 1);
    assert_eq!(preset_uses(&profiles, "9"), 0);
    assert_eq!(uses_label(0), "not in any preset");
    assert_eq!(uses_label(1), "1 preset");
    assert_eq!(uses_label(12), "12 presets");
    let stored = map(vec![
        ("1", LibraryEntry { raw_size: 100, stored_size: 40, ..Default::default() }),
        ("2", LibraryEntry { raw_size: 50, stored_size: 45, ..Default::default() }),
    ]);
    assert_eq!(library_totals(&stored), Some((85, 150)));
    let huge = map(vec![
        ("1", LibraryEntry { raw_size: u64::MAX, stored_size: 1, ..Default::default() }),
        ("2", LibraryEntry { raw_size: 1, stored_size: 1, ..Default::default() }),
    ]);
    assert_eq!(library_totals(&huge), None);
}

#[test]
fn mods_filter_matches_id_title_and_author() {
    assert_eq!(mod_filter("  Portal  "), "portal");
    assert_eq!(mod_filter("ÄRGER"), "ärger");
    assert_eq!(mod_filter("   "), "");
    let f = mod_filter("Portal");
    assert!(mod_listed(&f, "123", "My PORTAL Gun", ""));
    assert!(!mod_listed(&f, "123", "Other", "someone"));
    assert!(mod_listed(&f, "123", "Other", "PortalMaker"));
    assert!(mod_listed("", "1", "", ""));
    assert!(mod_listed("12", "9123", "x", "y"));
    assert!(!mod_listed("ab", "AB", "x", "y"));
    assert!(listed_with("gun", "1", "my gun", ""));
    assert!(!listed_with("Gun", "1", "my gun", ""));
}
