use gmod_manager::config::{config_plan, filter_nomount, ConfigFiles};
use gmod_manager::idmap::IdMap;
use gmod_manager::library::Plan;
use gmod_manager::model::{Bind, FileMapping, Profile, Setting, WorkshopItem};
use gmod_manager::preview::{
    list_token, lua_list, lua_long_string, menu_catalog, replace_str, without_managed_block,
    workshop_menu_script, Catalog,
};
use gmod_manager::workshop::ItemMeta;

const MENU: &str = "include( \"mainmenu.lua\" )\n";

fn catalog_json(catalog: &Catalog) -> String {
    let mods: Vec<serde_json::Value> = catalog
        .mods
        .iter()
        .map(|m| {
            let mut o = serde_json::Map::new();
            o.insert("id".into(), serde_json::Value::String(m.id.clone()));
            o.insert("preview".into(), serde_json::Value::String(m.preview.clone()));
            o.insert("size".into(), serde_json::Value::String(m.size.clone()));
            o.insert("title".into(), serde_json::Value::String(m.title.clone()));
            serde_json::Value::Object(o)
        })
        .collect();
    let mut root = serde_json::Map::new();
    root.insert("mods".into(), serde_json::Value::Array(mods));
    root.insert("preset".into(), serde_json::Value::String(catalog.preset.clone()));
    root.insert("size".into(), serde_json::Value::String(catalog.size.clone()));
    serde_json::Value::Object(root).to_string()
}

fn files(menu: Option<&str>, nomount: Option<&str>, autoexec: &str) -> ConfigFiles {
    ConfigFiles {
        menu: menu.map(str::to_string),
        menu_path: "garrysmod/lua/menu/menu.lua".into(),
        nomount: nomount.map(str::to_string),
        autoexec: autoexec.into(),
    }
}

#[test]
fn menu_tab_catalog_survives_awkward_titles() {
    let mut profile = Profile::blank("Test", "test");
    let title = "Evil ]]\"title\" ]=] \u{2028} </script>";
    profile.workshop.items = vec![
        WorkshopItem {
            id: "1".into(),
            title: Some(title.into()),
            available: true,
            manually_added: false,
        },
        WorkshopItem {
            id: "2".into(),
            title: None,
            available: false,
            manually_added: false,
        },
    ];
    let mut meta = IdMap::new();
    meta.insert(
        "1".to_string(),
        ItemMeta {
            size: 15_023_403,
            preview_url: "https://images.example/x/".into(),
            ..Default::default()
        },
    );
    let (catalog_ids, catalog) = menu_catalog(&profile, &meta);
    let script = workshop_menu_script(&profile, &Plan::default(), &catalog_ids, &catalog_json(&catalog), "");
    let start = script.find("local catalog = [").unwrap() + "local catalog = ".len();
    let level = script[start + 1..].bytes().take_while(|b| *b == b'=').count();
    let open = format!("[{}[", "=".repeat(level));
    let close = format!("]{}]", "=".repeat(level));
    let body_start = start + open.len();
    let body_end = body_start + script[body_start..].find(&close).unwrap();
    let json: serde_json::Value = serde_json::from_str(&script[body_start..body_end]).unwrap();
    assert_eq!(json["mods"].as_array().unwrap().len(), 1, "unavailable mods are hidden");
    assert_eq!(json["mods"][0]["title"], title);
    assert_eq!(json["mods"][0]["size"], "14.3 MB");
    assert!(json["mods"][0]["preview"]
        .as_str()
        .unwrap()
        .starts_with("https://images.example/x/?imw="));
    assert!(!script[body_start..body_end].contains('\u{2028}'));
    assert!(script.contains("local catalogIds = {\n  \"1\",\n}"));
}

#[test]
fn catalog_titles_fall_back_to_steam_then_the_id() {
    let mut profile = Profile::blank("Mine", "mine");
    for (id, title) in [("1", None), ("2", Some("")), ("3", Some("Own"))] {
        profile.workshop.items.push(WorkshopItem {
            id: id.into(),
            title: title.map(str::to_string),
            available: true,
            manually_added: false,
        });
    }
    let mut meta = IdMap::new();
    meta.insert("2".to_string(), ItemMeta { title: "Steam".into(), size: 2048, preview_url: "https://p?x=1".into(), ..Default::default() });
    let (ids, catalog) = menu_catalog(&profile, &meta);
    assert_eq!(ids, ["1", "2", "3"]);
    let titles: Vec<&str> = catalog.mods.iter().map(|m| m.title.as_str()).collect();
    assert_eq!(titles, ["Workshop item 1", "Steam", "Own"]);
    assert_eq!(catalog.mods[1].preview, "https://p?x=1&imw=256&imh=256&ima=fit&impolicy=Letterbox&letterbox=false");
    assert_eq!(catalog.mods[0].size, "");
    assert_eq!(catalog.size, "2.00 KB");
    assert_eq!(catalog.preset, "Mine");
}

#[test]
fn turning_off_addons_removes_the_subscription_bridge() {
    let menu = format!("include( \"mainmenu.lua\" )\n-- GMM WORKSHOP BEGIN\ninclude( \"gmm_workshop.lua\" )\n-- GMM WORKSHOP END\n");
    let mut profile = Profile::blank("Test", "test");
    profile.sync.addons = false;
    let plan = config_plan(&profile, &Plan::default(), &files(Some(&menu), None, ""), &Vec::new(), "{}", "").unwrap();
    let menu = plan.writes.iter().find(|w| w.relative == "lua/menu/menu.lua").unwrap();
    assert_eq!(menu.content, "include( \"mainmenu.lua\" )\n");
}

#[test]
fn managed_addons_install_the_bridge_and_turn_disabled_mods_back_on() {
    let mut profile = Profile::blank("Test", "test");
    profile.workshop.items.push(WorkshopItem { id: "123456789".into(), title: None, available: true, manually_added: false });
    profile.workshop.items.push(WorkshopItem { id: "999999999".into(), title: None, available: false, manually_added: false });
    let plan = Plan { subscribe: vec!["123456789".into()], ..Default::default() };
    let result = config_plan(
        &profile,
        &plan,
        &files(Some(MENU), Some("\"123456789\"\n\"888888888\"\n"), ""),
        &vec!["123456789".to_string()],
        "{}",
        "/* tab */",
    )
    .unwrap();
    let names: Vec<&str> = result.writes.iter().map(|w| w.relative.as_str()).collect();
    assert_eq!(names, ["lua/menu/gmm_workshop.lua", "lua/menu/menu.lua", "cfg/addonnomount.txt"]);
    assert!(result.writes[0].content.contains("steamworks.Subscribe(id)"));
    assert!(result.writes[0].content.contains("123456789"));
    assert!(!result.writes[0].content.contains("999999999"));
    assert!(result.writes[1].content.contains("include( \"gmm_workshop.lua\" )"));
    assert_eq!(result.writes[2].content, "\"888888888\"\n");
    assert_eq!(result.notes, ["Turns 1 disabled mods back on."]);
    let missing = config_plan(&profile, &plan, &files(None, None, ""), &Vec::new(), "{}", "").unwrap_err();
    assert_eq!(missing, "GMod menu script was not found: garrysmod/lua/menu/menu.lua");
}

#[test]
fn settings_go_through_a_managed_autoexec_block() {
    let mut profile = Profile::blank("Test", "test");
    profile.sync.addons = false;
    profile.sync.binds = true;
    profile.sync.settings = true;
    profile.binds.push(Bind { key: "Q".into(), command: "+use".into(), sync: true });
    profile.convars.push(Setting { name: "sensitivity".into(), value: "2".into(), sync: true });
    profile.file_mappings.push(FileMapping { path: "cfg/extra.cfg".into(), content: "x 1\n".into(), sync: true });
    let old = "echo original\n// GMM MANAGED BEGIN\nexec old.cfg\n// GMM MANAGED END\n\n";
    let result = config_plan(&profile, &Plan::default(), &files(Some(MENU), None, old), &Vec::new(), "{}", "").unwrap();
    let names: Vec<&str> = result.writes.iter().map(|w| w.relative.as_str()).collect();
    assert_eq!(names, ["cfg/gmm_active.cfg", "cfg/autoexec.cfg", "cfg/extra.cfg"]);
    assert_eq!(
        result.writes[0].content,
        "// Generated by GMod Manager. Edit the profile in the manager.\nbind \"Q\" \"+use\"\nsensitivity \"2\"\n"
    );
    assert_eq!(result.writes[1].content, "echo original\n// GMM MANAGED BEGIN\nexec gmm_active.cfg\n// GMM MANAGED END\n");
    assert!(result.notes.is_empty());
    profile.binds.clear();
    profile.convars.clear();
    profile.file_mappings.clear();
    let result = config_plan(&profile, &Plan::default(), &files(Some(MENU), None, old), &Vec::new(), "{}", "").unwrap();
    assert_eq!(result.writes.len(), 1);
    assert_eq!(result.writes[0].content, "echo original\n");
    assert_eq!(result.notes, ["Binds are on, but the list is empty.", "Settings are on, but the list is empty."]);
}

#[test]
fn managed_blocks_need_their_end_marker() {
    assert_eq!(without_managed_block("a\nB\nx\nE\r\n\nb", "B", "E").unwrap(), "a\nb");
    assert_eq!(without_managed_block("no block", "B", "E").unwrap(), "no block");
    assert_eq!(
        without_managed_block("a B open", "B", "E").unwrap_err(),
        "Managed block is missing its end marker: B"
    );
}

#[test]
fn nomount_keeps_lines_of_other_items() {
    let wanted = vec!["12".to_string()];
    assert_eq!(filter_nomount("\"12\"\n\"123\"\n", &wanted), ("\"123\"\n".to_string(), 1));
    assert_eq!(filter_nomount("a 12 b\r\nx", &wanted), ("x".to_string(), 1));
    assert_eq!(filter_nomount("12\n", &wanted), (String::new(), 1));
    assert_eq!(filter_nomount("5\n6", &wanted), ("5\n6".to_string(), 0));
}

#[test]
fn lua_text_helpers() {
    assert_eq!(lua_list(&vec!["1".to_string(), "2".to_string()]), "  \"1\",\n  \"2\",\n");
    assert_eq!(lua_long_string("abc"), "[=[abc]=]");
    assert_eq!(lua_long_string("x]=]y]==]"), "[===[x]=]y]==]]===]");
    assert_eq!(replace_str("a-b-c", "-", "+"), "a+b+c");
    assert_eq!(replace_str("aaa", "aa", "b"), "ba");
    assert_eq!(list_token(&Vec::new()), "cbf29ce484222325");
    assert_eq!(list_token(&vec!["a".to_string()]), "af63dc4c8601ec8c");
    assert_eq!(list_token(&vec!["1".to_string(), "2".to_string()]).len(), 16);
}

#[test]
fn applying_twice_leaves_menu_and_autoexec_as_they_were() {
    let mut profile = Profile::blank("Test", "test");
    profile.sync.binds = true;
    profile.binds.push(Bind { key: "Q".into(), command: "+use".into(), sync: true });
    profile.workshop.items.push(WorkshopItem { id: "123456789".into(), title: None, available: true, manually_added: false });
    let plan = Plan { subscribe: vec!["123456789".into()], ..Default::default() };
    let ids = vec!["123456789".to_string()];
    let first = config_plan(&profile, &plan, &files(Some("menu body"), None, "echo hi"), &ids, "{}", "").unwrap();
    let menu = first.writes.iter().find(|w| w.relative == "lua/menu/menu.lua").unwrap().content.clone();
    let autoexec = first.writes.iter().find(|w| w.relative == "cfg/autoexec.cfg").unwrap().content.clone();
    assert_eq!(menu, "menu body\n-- GMM WORKSHOP BEGIN\ninclude( \"gmm_workshop.lua\" )\n-- GMM WORKSHOP END\n");
    assert_eq!(autoexec, "echo hi\n// GMM MANAGED BEGIN\nexec gmm_active.cfg\n// GMM MANAGED END\n");
    let second = config_plan(&profile, &plan, &files(Some(&menu), None, &autoexec), &ids, "{}", "").unwrap();
    let names: Vec<&str> = second.writes.iter().map(|w| w.relative.as_str()).collect();
    assert_eq!(names, ["lua/menu/gmm_workshop.lua", "cfg/gmm_active.cfg"]);
    assert_eq!(second.writes[0].content, first.writes[0].content);
}

#[test]
fn filtering_the_disabled_list_twice_removes_nothing_more() {
    let wanted = vec!["12".to_string(), "7".to_string()];
    for text in ["\"12\"\n\"123\"\n", "a 12 b\r\r\nx\r\n7", "5\n6\n", "", "\n\n12\n"] {
        let (once, _) = filter_nomount(text, &wanted);
        let (twice, removed) = filter_nomount(&once, &wanted);
        assert_eq!(removed, 0, "{text:?}");
        assert_eq!(twice, once, "{text:?}");
    }
}
