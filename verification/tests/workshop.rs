use gmod_manager::details::{
    apply_collection, author_name, check_dependency_chunk, collection_children,
    dependency_meta, fetch_meta, parse_details, profile_name, refresh_collection,
};
use gmod_manager::idmap::IdMap;
use gmod_manager::json::Json;
use gmod_manager::model::{Profile, WorkshopItem};
use gmod_manager::scan::{parse_required_items, required_items_with, RequiredWalk};
use gmod_manager::workshop::{format_size, ItemMeta};

fn to_value(value: &Json) -> serde_json::Value {
    match value {
        Json::Null => serde_json::Value::Null,
        Json::Bool(b) => serde_json::Value::Bool(*b),
        Json::UInt(u) => serde_json::Value::from(*u),
        Json::NegInt(i) => serde_json::Value::from(*i),
        Json::Float(t) => serde_json::Value::Number(t.parse().unwrap()),
        Json::Str(s) => serde_json::Value::String(s.clone()),
        Json::Array(a) => serde_json::Value::Array(a.iter().map(to_value).collect()),
        Json::Object(m) => serde_json::Value::Object(m.iter().map(|(k, v)| (k.clone(), to_value(v))).collect()),
    }
}

/// A request's answer: the text of the JSON value.
fn answer(value: Json) -> Result<String, String> {
    Ok(to_value(&value).to_string())
}


fn obj(pairs: Vec<(&str, Json)>) -> Json {
    Json::Object(pairs.into_iter().map(|(k, v)| (k.to_string(), v)).collect())
}

fn text(s: &str) -> Json {
    Json::Str(s.to_string())
}

fn details(items: Vec<Json>) -> Json {
    obj(vec![("response", obj(vec![("publishedfiledetails", Json::Array(items))]))])
}

fn ids(values: &[&str]) -> Vec<String> {
    values.iter().map(|s| s.to_string()).collect()
}

#[test]
fn size_labels_pick_readable_units() {
    assert_eq!(format_size(512), "512 B");
    assert_eq!(format_size(727_710), "711 KB");
    assert_eq!(format_size(15_023_403), "14.3 MB");
    assert_eq!(format_size(9_421_980_810), "8.77 GB");
}

#[test]
fn size_labels_at_unit_edges() {
    assert_eq!(format_size(0), "0 B");
    assert_eq!(format_size(1023), "1023 B");
    assert_eq!(format_size(1024), "1.00 KB");
    assert_eq!(format_size(10 * 1024), "10.0 KB");
    assert_eq!(format_size(100 * 1024), "100 KB");
    assert_eq!(format_size(1024 * 1024), "1.00 MB");
    assert_eq!(format_size(u64::MAX), "16777216 TB");
}

#[test]
fn details_parser_marks_missing_items_unavailable() {
    let value = details(vec![
        obj(vec![
            ("publishedfileid", text("1")),
            ("result", Json::UInt(1)),
            ("title", text("One")),
            ("file_size", text("2048")),
            ("preview_url", text("https://x/")),
            ("time_updated", Json::UInt(5)),
            ("subscriptions", Json::UInt(7)),
            ("creator", text("76561198027025876")),
        ]),
        obj(vec![("publishedfileid", text("2")), ("result", Json::UInt(9))]),
    ]);
    let meta = parse_details(&value);
    assert_eq!(meta.get("1").unwrap().size, 2048);
    assert_eq!(meta.get("1").unwrap().creator, "76561198027025876");
    assert_eq!(meta.get("1").unwrap().time_updated, 5);
    assert!(meta.get("1").unwrap().available);
    assert!(!meta.get("2").unwrap().available);
}

#[test]
fn details_parser_ignores_malformed_responses() {
    assert_eq!(parse_details(&Json::Null).len(), 0);
    assert_eq!(parse_details(&obj(vec![("response", Json::UInt(3))])).len(), 0);
    let value = details(vec![
        obj(vec![("title", text("No id"))]),
        obj(vec![("publishedfileid", text("5")), ("file_size", text("+12")), ("subscriptions", Json::Float("1.5".into()))]),
    ]);
    let meta = parse_details(&value);
    assert_eq!(meta.len(), 1);
    assert_eq!(meta.get("5").unwrap().size, 12);
    assert_eq!(meta.get("5").unwrap().subscribers, 0);
    assert_eq!(meta.get("5").unwrap().title, "");
}

#[test]
fn required_items_walks_transitive_links_without_leaking_creator_links_or_cycles() {
    let mut visited = Vec::new();
    let found = required_items_with("10", |id| {
        visited.push(id.to_owned());
        Ok(match id {
            "10" => r#"<div id="RequiredItems"><a href="https://steamcommunity.com/workshop/filedetails/?id=20">Base</a><a href="https://steamcommunity.com/workshop/filedetails/?id=30">Extra</a></div><!-- created by --><a href="https://steamcommunity.com/workshop/filedetails/?id=99">Not required</a>"#,
            "20" => r#"<div id="RequiredItems"><a href="https://steamcommunity.com/workshop/filedetails/?id=10">Cycle</a><a href="https://steamcommunity.com/workshop/filedetails/?id=40">Nested</a></div><!-- created by -->"#,
            _ => "<div>No required items</div>",
        }
        .to_owned())
    })
    .unwrap();
    assert_eq!(found, ["20", "30", "40"]);
    assert_eq!(visited, ["10", "20", "30", "40"]);
}

#[test]
fn required_items_reports_fetch_errors_instead_of_incomplete_list() {
    let error = required_items_with("10", |id| {
        if id == "10" {
            Ok(r#"<div id="RequiredItems"><a href="https://steamcommunity.com/workshop/filedetails/?id=20"></a></div>"#.into())
        } else {
            Err("Steam offline".into())
        }
    })
    .unwrap_err();
    assert!(error.contains("20") && error.contains("Steam offline"));
}

#[test]
fn required_items_rejects_bad_ids_and_long_chains() {
    assert_eq!(required_items_with("", |_| Ok(String::new())).unwrap_err(), "Invalid Workshop ID");
    assert_eq!(required_items_with("12x", |_| Ok(String::new())).unwrap_err(), "Invalid Workshop ID");
    let error = required_items_with("1", |id| {
        let next: u64 = id.parse::<u64>().unwrap() + 1;
        Ok(format!("<div id=\"RequiredItems\"><a href=\"filedetails/?id={next}\"></a></div>"))
    })
    .unwrap_err();
    assert_eq!(error, "This mod requires too many other mods to check.");
}

#[test]
fn required_section_ends_at_the_right_column() {
    let html = r#"<div id="RequiredItems">filedetails/?id=5 filedetails/?id=6</div><div class="rightSectionTopTitle">filedetails/?id=7"#;
    assert_eq!(parse_required_items(html), ["5", "6"]);
    assert!(parse_required_items("filedetails/?id=5").is_empty());
}

#[test]
fn required_walk_asks_for_each_item_once() {
    let mut walk = RequiredWalk::start("1").unwrap();
    assert_eq!(walk.next_request().unwrap(), "1");
    walk.feed(Ok("<p id=\"RequiredItems\">filedetails/?id=2 filedetails/?id=1".into())).unwrap();
    assert_eq!(walk.next_request().unwrap(), "2");
    let error = walk.feed(Err("timeout".into())).unwrap_err();
    assert_eq!(error, "Couldn't check required mods for 2: timeout");
    assert_eq!(walk.next_request().unwrap(), "2");
    walk.feed(Ok(String::new())).unwrap();
    assert!(walk.next_request().is_none());
    assert_eq!(walk.found(), ["2"]);
}

fn dep(id: &str, result: u64, app: u64) -> Json {
    obj(vec![
        ("publishedfileid", text(id)),
        ("result", Json::UInt(result)),
        ("consumer_app_id", Json::UInt(app)),
        ("title", text(id)),
    ])
}

#[test]
fn dependencies_must_all_be_gmod_items() {
    let ok = dependency_meta(&ids(&["1", "2"]), |chunk: &Vec<String>| -> Result<String, String> {
        answer(details(chunk.iter().map(|id| dep(id, 1, 4000)).collect()))
    })
    .unwrap();
    assert!(ok.get("1").unwrap().available && ok.get("2").unwrap().available);
    let wrong_game = dependency_meta(&ids(&["1", "2"]), |_c: &Vec<String>| -> Result<String, String> {
        answer(details(vec![dep("1", 1, 4000), dep("2", 1, 440)]))
    })
    .unwrap_err();
    assert_eq!(wrong_game, "Required mod 2 is unavailable for GMod.");
    let missing = dependency_meta(&ids(&["1", "2"]), |_c: &Vec<String>| -> Result<String, String> {
        answer(details(vec![dep("1", 1, 4000)]))
    })
    .unwrap_err();
    assert_eq!(missing, "Required mod 2 is unavailable.");
    let no_list = check_dependency_chunk(&ids(&["1"]), &Json::Null).unwrap_err();
    assert_eq!(no_list, "Steam did not return dependency details");
    assert!(check_dependency_chunk(&ids(&["1"]), &details(vec![dep("9", 9, 1)])).is_ok());
}

#[test]
fn details_are_requested_a_hundred_at_a_time() {
    let all: Vec<String> = (1..=250).map(|n| n.to_string()).collect();
    let mut sizes = Vec::new();
    let meta = fetch_meta(&all, |chunk: &Vec<String>| -> Result<String, String> {
        sizes.push(chunk.len());
        answer(details(chunk.iter().map(|id| dep(id, 1, 4000)).collect()))
    })
    .unwrap();
    assert_eq!(sizes, [100, 100, 50]);
    assert_eq!(meta.len(), 250);
}

#[test]
fn profile_names_come_from_the_steam_id_element() {
    assert_eq!(
        profile_name("<profile><steamID><![CDATA[  Garry  ]]></steamID></profile>").unwrap(),
        "Garry"
    );
    assert_eq!(profile_name("<profile></profile>").unwrap_err(), "Profile has no name");
    assert_eq!(profile_name("<steamID><![CDATA[ ]]>").unwrap_err(), "Profile has no name");
    assert_eq!(profile_name("<steamID><![CDATA[open").unwrap_err(), "Profile has no name");
    assert_eq!(author_name("7656x", |_id: &str| -> Result<String, String> { panic!() }).unwrap_err(), "Invalid Steam ID");
    assert_eq!(
        author_name("765", |id: &str| -> Result<String, String> {
            Ok(format!("<steamID><![CDATA[User {id}]]>"))
        })
        .unwrap(),
        "User 765"
    );
}

fn child(id: &str, filetype: u64) -> Json {
    obj(vec![("publishedfileid", text(id)), ("filetype", Json::UInt(filetype))])
}

fn collection(result: u64, children: Vec<Json>) -> Json {
    obj(vec![(
        "response",
        obj(vec![(
            "collectiondetails",
            Json::Array(vec![obj(vec![("result", Json::UInt(result)), ("children", Json::Array(children))])]),
        )]),
    )])
}

#[test]
fn collection_children_skip_nested_collections() {
    let value = collection(1, vec![child("1", 0), child("2", 2), child("3", 0)]);
    assert_eq!(collection_children(&value).unwrap(), ["1", "3"]);
    assert_eq!(
        collection_children(&collection(9, vec![])).unwrap_err(),
        "Steam could not load that collection."
    );
    let no_children = obj(vec![(
        "response",
        obj(vec![("collectiondetails", Json::Array(vec![obj(vec![("result", Json::UInt(1))])]))]),
    )]);
    assert_eq!(collection_children(&no_children).unwrap_err(), "Steam returned no items");
}

fn item(id: &str, manual: bool) -> WorkshopItem {
    WorkshopItem { id: id.into(), title: None, available: true, manually_added: manual }
}

#[test]
fn refresh_keeps_manual_items_and_counts_changes() {
    let mut profile = Profile::blank("Test", "test");
    profile.workshop.collection_id = "555".into();
    profile.workshop.items = vec![item("1", false), item("2", false), item("7", true), item("3", true)];
    let mut meta = IdMap::new();
    meta.insert(
        "3".to_string(),
        ItemMeta { title: "Three".into(), available: true, ..Default::default() },
    );
    let (added, removed) = apply_collection(&mut profile, &ids(&["2", "3", "4"]), &meta);
    assert_eq!((added, removed), (2, 1));
    let got: Vec<(&str, bool)> =
        profile.workshop.items.iter().map(|i| (i.id.as_str(), i.manually_added)).collect();
    assert_eq!(got, [("2", false), ("3", false), ("4", false), ("7", true)]);
    assert_eq!(profile.workshop.items[1].title.as_deref(), Some("Three"));
    assert!(profile.workshop.items[1].available);
    assert!(!profile.workshop.items[0].available);
    assert_eq!(
        profile.source.collection_url,
        "https://steamcommunity.com/sharedfiles/filedetails/?id=555"
    );
}

#[test]
fn refresh_needs_a_numeric_collection_and_leaves_the_preset_on_failure() {
    let mut profile = Profile::blank("Test", "test");
    let error = refresh_collection(
        &mut profile,
        |_id: &str| -> Result<String, String> { panic!() },
        |_c: &Vec<String>| -> Result<String, String> { panic!() },
    )
    .unwrap_err();
    assert_eq!(error, "Enter a numeric Steam collection ID first.");
    profile.workshop.collection_id = "42".into();
    profile.workshop.items = vec![item("1", false)];
    let error = refresh_collection(
        &mut profile,
        |_id: &str| -> Result<String, String> { answer(collection(1, vec![child("8", 0)])) },
        |_c: &Vec<String>| -> Result<String, String> { Err("offline".into()) },
    )
    .unwrap_err();
    assert_eq!(error, "offline");
    assert_eq!(profile.workshop.items.len(), 1);
    assert_eq!(profile.workshop.items[0].id, "1");
    let (added, removed, meta) = refresh_collection(
        &mut profile,
        |id: &str| -> Result<String, String> {
            assert_eq!(id, "42");
            answer(collection(1, vec![child("8", 0)]))
        },
        |c: &Vec<String>| -> Result<String, String> {
            answer(details(c.iter().map(|id| dep(id, 1, 4000)).collect()))
        },
    )
    .unwrap();
    assert_eq!((added, removed, meta.len()), (1, 1, 1));
    assert_eq!(profile.workshop.items[0].id, "8");
    assert_eq!(profile.workshop.items[0].title.as_deref(), Some("8"));
}

#[test]
fn details_text_is_read_as_json() {
    let meta = fetch_meta(&ids(&["7"]), |_c: &Vec<String>| -> Result<String, String> {
        Ok(r#"{"response":{"publishedfiledetails":[{"publishedfileid":"7","result":1,"consumer_app_id":4000,"title":"Seven","file_size":"12"}]}}"#.to_string())
    })
    .unwrap();
    assert_eq!(meta.get("7").unwrap().title, "Seven");
    let err = fetch_meta(&ids(&["7"]), |_c: &Vec<String>| -> Result<String, String> { Ok("{".to_string()) })
        .unwrap_err();
    assert!(err.starts_with("EOF while parsing"), "{err}");
}
