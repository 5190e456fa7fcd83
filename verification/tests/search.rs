use gmod_manager::details::{search_request, search_results, search_workshop, SearchRequest};
use gmod_manager::json::Json;
use gmod_manager::scan::workshop_ids_from_search_html;

fn to_value(value: &Json) -> serde_json::Value {
    match value {
        Json::Null => serde_json::Value::Null,
        Json::Bool(b) => serde_json::Value::Bool(*b),
        Json::UInt(u) => serde_json::Value::from(*u),
        Json::NegInt(i) => serde_json::Value::from(*i),
        Json::Float(t) => serde_json::Value::Number(t.parse().unwrap()),
        Json::Str(s) => serde_json::Value::String(s.clone()),
        Json::Array(a) => serde_json::Value::Array(a.iter().map(to_value).collect()),
        Json::Object(m) => serde_json::Value::Object(m.iter().map(|(k, v)| (k.clone(), to_value(v))).collect()),
    }
}

/// A request's answer: the text of the JSON value.
fn answer(value: Json) -> Result<String, String> {
    Ok(to_value(&value).to_string())
}


fn obj(pairs: Vec<(&str, Json)>) -> Json {
    Json::Object(pairs.into_iter().map(|(k, v)| (k.to_string(), v)).collect())
}

fn text(s: &str) -> Json {
    Json::Str(s.to_string())
}

fn details(items: Vec<Json>) -> Json {
    obj(vec![("response", obj(vec![("publishedfiledetails", Json::Array(items))]))])
}

fn item(id: &str, app: u64, result: u64, title: &str) -> Json {
    obj(vec![
        ("publishedfileid", text(id)),
        ("consumer_app_id", Json::UInt(app)),
        ("result", Json::UInt(result)),
        ("title", text(title)),
    ])
}

#[test]
fn workshop_search_parser_keeps_unique_result_ids() {
    let html = r#"<a href="https://steamcommunity.com/sharedfiles/filedetails/?id=123">One</a><a href="https://steamcommunity.com/sharedfiles/filedetails/?id=123">One again</a><a href="https://steamcommunity.com/sharedfiles/filedetails/?id=456">Two</a>"#;
    assert_eq!(workshop_ids_from_search_html(html), vec!["123", "456"]);
}

#[test]
fn search_parser_stops_at_thirty_results() {
    let mut html = String::new();
    for id in 1..=40 {
        html.push_str(&format!(
            "<a href=\"https://steamcommunity.com/sharedfiles/filedetails/?id={id}\">x</a>"
        ));
    }
    let ids = workshop_ids_from_search_html(&html);
    assert_eq!(ids.len(), 30);
    assert_eq!(ids[0], "1");
    assert_eq!(ids[29], "30");
}

#[test]
fn search_parser_skips_links_without_digits() {
    let html = "https://steamcommunity.com/sharedfiles/filedetails/?id=abc https://steamcommunity.com/sharedfiles/filedetails/?id=77x";
    assert_eq!(workshop_ids_from_search_html(html), vec!["77"]);
}

#[test]
fn search_request_checks_length_and_page() {
    assert_eq!(search_request(" a ", 1).unwrap_err(), "Type at least 2 characters.");
    assert_eq!(search_request(&"x".repeat(101), 1).unwrap_err(), "Type at least 2 characters.");
    assert_eq!(search_request("portal", 0).unwrap_err(), "Search page is out of range.");
    assert_eq!(search_request("portal", 101).unwrap_err(), "Search page is out of range.");
}

#[test]
fn search_request_finds_direct_ids() {
    assert!(matches!(search_request(" 123456 ", 1).unwrap(), SearchRequest::Item(id) if id == "123456"));
    assert!(matches!(
        search_request("https://steamcommunity.com/sharedfiles/filedetails/?id=42&x=1", 3).unwrap(),
        SearchRequest::Item(id) if id == "42"
    ));
    assert!(matches!(search_request("  portal gun ", 2).unwrap(), SearchRequest::Browse(t) if t == "portal gun"));
    assert!(matches!(search_request("id=abc", 1).unwrap(), SearchRequest::Browse(t) if t == "id=abc"));
}

#[test]
fn search_results_keep_resolved_gmod_items_in_order() {
    let value = details(vec![
        item("3", 4000, 1, "Three"),
        item("1", 4000, 1, "One"),
        item("2", 440, 1, "Other game"),
        item("4", 4000, 9, "Missing"),
    ]);
    let ids: Vec<String> = ["1", "2", "3", "4", "1", "5"].iter().map(|s| s.to_string()).collect();
    let hits = search_results(&ids, &value);
    let found: Vec<&str> = hits.iter().map(|h| h.id.as_str()).collect();
    assert_eq!(found, ["1", "3"]);
    assert_eq!(hits[0].meta.title, "One");
    assert!(hits.iter().all(|h| h.meta.available));
}

#[test]
fn search_with_direct_id_skips_the_browse_page() {
    let hits = search_workshop(
        "12345",
        1,
        |_text: &str, _page: usize| -> Result<String, String> { panic!("no browse for a direct id") },
        |ids: &Vec<String>| -> Result<String, String> {
            assert_eq!(ids, &vec!["12345".to_string()]);
            answer(details(vec![item("12345", 4000, 1, "Direct")]))
        },
    )
    .unwrap();
    assert_eq!(hits.len(), 1);
    assert_eq!(hits[0].meta.title, "Direct");
}

#[test]
fn search_with_browse_passes_trimmed_text_and_page() {
    let hits = search_workshop(
        " portal ",
        2,
        |text: &str, page: usize| -> Result<String, String> {
            assert_eq!((text, page), ("portal", 2));
            Ok("https://steamcommunity.com/sharedfiles/filedetails/?id=9".to_string())
        },
        |_ids: &Vec<String>| -> Result<String, String> { answer(details(vec![item("9", 4000, 1, "Nine")])) },
    )
    .unwrap();
    assert_eq!(hits[0].id, "9");
    let empty = search_workshop(
        "portal",
        1,
        |_t: &str, _p: usize| -> Result<String, String> { Ok("nothing here".to_string()) },
        |_ids: &Vec<String>| -> Result<String, String> { panic!("no details for no ids") },
    )
    .unwrap();
    assert!(empty.is_empty());
}

#[test]
fn details_text_that_is_no_json_fails_the_search() {
    let err = search_workshop(
        "12345",
        1,
        |_text: &str, _page: usize| -> Result<String, String> { panic!("no browse for a direct id") },
        |_ids: &Vec<String>| -> Result<String, String> { Ok("<html>busy</html>".to_string()) },
    )
    .unwrap_err();
    assert!(err.starts_with("expected value"), "{err}");
}
