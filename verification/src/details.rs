//! Steam Web API responses: item details, search results, collections and required-item checks.

use crate::idmap::IdMap;
use crate::json::{answer_json, read_answer, Json};
use crate::model::{Profile, WorkshopItem};
use crate::order::str_views;
use crate::scan::{digit_run, lemma_scan_limit, scan_ids, workshop_ids_from_search_html, SEARCH_LINK};
use crate::text::{
    all_digits, chars_of, digits_only, find, find_chars_from, is_numeric, lemma_find_from,
    lemma_trim_idempotent, numeric, parse_u64, parse_u64_chars, string_of, trim, trim_chars,
};
use crate::validate::string_result;
use crate::workshop::ItemMeta;
use vstd::prelude::*;

verus! {

/// A string member's text; empty when the member is missing or not a string.
pub open spec fn text_of(v: Json) -> Seq<char> {
    match v.str_of() {
        Some(s) => s,
        None => seq![],
    }
}

/// A number member, given as a JSON number or as decimal text; 0 otherwise.
pub open spec fn number_of(v: Json) -> u64 {
    match v.u64_of() {
        Some(u) => u,
        None => match v.str_of() {
            Some(s) => match parse_u64(s) {
                Some(u) => u,
                None => 0,
            },
            None => 0,
        },
    }
}

/// Steam resolved the item.
pub open spec fn resolved(item: Json) -> bool {
    item.at("result"@).i64_of() == Some(1i64)
}

/// `meta` holds what `item`, one entry of a details response, says.
pub open spec fn meta_from(meta: ItemMeta, item: Json) -> bool {
    &&& meta.title@ == text_of(item.at("title"@))
    &&& meta.size == number_of(item.at("file_size"@))
    &&& meta.preview_url@ == text_of(item.at("preview_url"@))
    &&& meta.time_updated == number_of(item.at("time_updated"@))
    &&& meta.subscribers == number_of(item.at("subscriptions"@))
    &&& meta.available == resolved(item)
    &&& meta.creator@ == text_of(item.at("creator"@))
}

/// The entries of a details response, when it has a list of them.
pub open spec fn details_list(value: Json) -> Option<Seq<Json>> {
    value.at("response"@).at("publishedfiledetails"@).array_of()
}

/// Each ID in `items` to the last entry that carries it.
pub open spec fn entries_by_id(items: Seq<Json>) -> Map<Seq<char>, Json>
    decreases items.len(),
{
    if items.len() == 0 {
        Map::empty()
    } else {
        match items.last().at("publishedfileid"@).str_of() {
            Some(id) => entries_by_id(items.drop_last()).insert(id, items.last()),
            None => entries_by_id(items.drop_last()),
        }
    }
}

pub open spec fn spec_details(value: Json) -> Map<Seq<char>, Json> {
    match details_list(value) {
        Some(items) => entries_by_id(items),
        None => Map::empty(),
    }
}

/// `m` holds, for each ID of `entries`, what its entry says.
pub open spec fn metas_from(m: Map<Seq<char>, ItemMeta>, entries: Map<Seq<char>, Json>) -> bool {
    &&& m.dom() == entries.dom()
    &&& forall|id: Seq<char>| #[trigger] m.contains_key(id) ==> meta_from(m[id], entries[id])
}

/// `v` gives the number `n`: as a JSON number, or as its decimal text.
pub open spec fn gives_number(v: Json, n: u64) -> bool {
    v == Json::UInt(n) || (v matches Json::Str(s) && s@ == crate::text::decimal(n as nat))
}

/// `v` is the JSON text `t`.
pub open spec fn gives_text(v: Json, t: Seq<char>) -> bool {
    v matches Json::Str(s) && s@ == t
}

/// What an entry of a details response says is what its item's details hold: `title`,
/// `preview_url` and `creator` are its texts; `file_size`, `time_updated` and `subscriptions` are
/// its numbers, given as JSON numbers or as decimal text; a member that is missing reads as
/// empty or 0; and the item is available exactly when `result` is 1.
pub proof fn lemma_meta_reads_members(meta: ItemMeta, item: Json)
    requires
        meta_from(meta, item),
    ensures
        forall|n: u64| #[trigger] gives_number(item.at("subscriptions"@), n) ==> meta.subscribers == n,
        forall|n: u64| #[trigger] gives_number(item.at("file_size"@), n) ==> meta.size == n,
        forall|n: u64| #[trigger] gives_number(item.at("time_updated"@), n) ==> meta.time_updated == n,
        forall|t: Seq<char>| #[trigger] gives_text(item.at("title"@), t) ==> meta.title@ == t,
        forall|t: Seq<char>| #[trigger] gives_text(item.at("preview_url"@), t) ==> meta.preview_url@ == t,
        forall|t: Seq<char>| #[trigger] gives_text(item.at("creator"@), t) ==> meta.creator@ == t,
        item.at("subscriptions"@) == Json::Null ==> meta.subscribers == 0,
        item.at("file_size"@) == Json::Null ==> meta.size == 0,
        item.at("time_updated"@) == Json::Null ==> meta.time_updated == 0,
        item.at("title"@) == Json::Null ==> meta.title@.len() == 0,
        item.at("result"@) == Json::UInt(1) ==> meta.available,
        forall|k: u64| item.at("result"@) == Json::UInt(k) && k != 1 ==> !meta.available,
        item.at("result"@) == Json::Null ==> !meta.available,
{
    assert forall|v: Json, n: u64| #[trigger] gives_number(v, n) implies number_of(v) == n by {
        if let Json::Str(s) = v {
            crate::text::lemma_decimal_reads_back(n as nat);
            let d = s@;
            assert(d.len() > 0 && d[0] != '+');
        }
    }
}

/// A details response read by `parse_details` (or for one chunk by `fetch_meta`): for an item
/// whose last entry in the response's `publishedfiledetails` list is `items[k]`, the details
/// read hold what that entry says.
pub proof fn lemma_details_entry(m: Map<Seq<char>, ItemMeta>, value: Json, items: Seq<Json>, k: int, id: Seq<char>)
    requires
        metas_from(m, spec_details(value)),
        value.at("response"@).at("publishedfiledetails"@).array_of() == Some(items),
        0 <= k < items.len(),
        gives_text(items[k].at("publishedfileid"@), id),
        forall|j: int| k < j < items.len() ==> !gives_text(#[trigger] items[j].at("publishedfileid"@), id),
    ensures
        m.contains_key(id),
        meta_from(m[id], items[k]),
        forall|n: u64| #[trigger] gives_number(items[k].at("subscriptions"@), n) ==> m[id].subscribers == n,
        forall|n: u64| #[trigger] gives_number(items[k].at("file_size"@), n) ==> m[id].size == n,
        forall|t: Seq<char>| #[trigger] gives_text(items[k].at("title"@), t) ==> m[id].title@ == t,
        items[k].at("result"@) == Json::UInt(1) ==> m[id].available,
{
    lemma_entry_last(items, k, id);
    lemma_meta_reads_members(m[id], items[k]);
}

proof fn lemma_entry_last(items: Seq<Json>, k: int, id: Seq<char>)
    requires
        0 <= k < items.len(),
        gives_text(items[k].at("publishedfileid"@), id),
        forall|j: int| k < j < items.len() ==> !gives_text(#[trigger] items[j].at("publishedfileid"@), id),
    ensures
        entries_by_id(items).contains_key(id),
        entries_by_id(items)[id] == items[k],
    decreases items.len(),
{
    let last = items.len() - 1;
    if k < last {
        let d = items.drop_last();
        assert forall|j: int| k < j < d.len() implies !gives_text(#[trigger] d[j].at("publishedfileid"@), id) by {
            assert(d[j] == items[j]);
        }
        assert(d[k] == items[k]);
        lemma_entry_last(d, k, id);
        assert(!gives_text(items[last].at("publishedfileid"@), id));
    }
}

fn text_at(item: &Json, key: &str) -> (r: String)
    ensures
        r@ == text_of(item.at(key@)),
{
    match item.get(key) {
        Some(v) => match v.as_str() {
            Some(s) => s.to_string(),
            None => String::new(),
        },
        None => String::new(),
    }
}

fn number_at(item: &Json, key: &str) -> (r: u64)
    ensures
        r == number_of(item.at(key@)),
{
    match item.get(key) {
        Some(v) => match v.as_u64() {
            Some(u) => u,
            None => match v.as_str() {
                Some(s) => match parse_u64_chars(&chars_of(s)) {
                    Some(u) => u,
                    None => 0,
                },
                None => 0,
            },
        },
        None => 0,
    }
}

fn i64_at(item: &Json, key: &str) -> (r: Option<i64>)
    ensures
        r == item.at(key@).i64_of(),
{
    match item.get(key) {
        Some(v) => v.as_i64(),
        None => None,
    }
}

fn u64_at(item: &Json, key: &str) -> (r: Option<u64>)
    ensures
        r == item.at(key@).u64_of(),
{
    match item.get(key) {
        Some(v) => v.as_u64(),
        None => None,
    }
}

fn str_at<'a>(item: &'a Json, key: &str) -> (r: Option<&'a str>)
    ensures
        match r {
            Some(s) => item.at(key@).str_of() == Some(s@),
            None => item.at(key@).str_of() is None,
        },
{
    match item.get(key) {
        Some(v) => v.as_str(),
        None => None,
    }
}

/// What one entry of a details response says about its item.
pub fn meta_of(item: &Json) -> (r: ItemMeta)
    ensures
        meta_from(r, *item),
{
    ItemMeta {
        title: text_at(item, "title"),
        size: number_at(item, "file_size"),
        preview_url: text_at(item, "preview_url"),
        time_updated: number_at(item, "time_updated"),
        subscribers: number_at(item, "subscriptions"),
        available: i64_at(item, "result") == Some(1i64),
        creator: text_at(item, "creator"),
    }
}

/// The entries of a details response.
pub fn details_entries(value: &Json) -> (r: Option<&Vec<Json>>)
    ensures
        match r {
            Some(a) => details_list(*value) == Some(a@),
            None => details_list(*value) is None,
        },
{
    match value.get("response") {
        Some(resp) => match resp.get("publishedfiledetails") {
            Some(list) => list.as_array(),
            None => None,
        },
        None => None,
    }
}

/// Parses a `GetPublishedFileDetails` response. Items Steam could not resolve are returned with
/// `available == false`, so callers can tell them apart from unknown IDs.
pub fn parse_details(value: &Json) -> (r: IdMap<ItemMeta>)
    ensures
        r.wf(),
        metas_from(r@, spec_details(*value)),
{
    let mut found: IdMap<ItemMeta> = IdMap::new();
    let items = match details_entries(value) {
        Some(items) => items,
        None => {
            return found;
        },
    };
    let mut i: usize = 0;
    while i < items.len()
        invariant
            i <= items@.len(),
            details_list(*value) == Some(items@),
            found.wf(),
            metas_from(found@, entries_by_id(items@.take(i as int))),
        decreases items.len() - i,
    {
        assert(items@.take(i + 1).drop_last() =~= items@.take(i as int));
        assert(items@.take(i + 1).last() == items@[i as int]);
        let item = &items[i];
        if let Some(id) = str_at(item, "publishedfileid") {
            let meta = meta_of(item);
            found.insert(id.to_string(), meta);
        }
        i = i + 1;
    }
    assert(items@.take(i as int) =~= items@);
    found
}

/// A copy of `m`, field by field.
pub fn copy_meta(m: &ItemMeta) -> (r: ItemMeta)
    ensures
        r.title@ == m.title@,
        r.size == m.size,
        r.preview_url@ == m.preview_url@,
        r.time_updated == m.time_updated,
        r.subscribers == m.subscribers,
        r.available == m.available,
        r.creator@ == m.creator@,
{
    ItemMeta {
        title: m.title.clone(),
        size: m.size,
        preview_url: m.preview_url.clone(),
        time_updated: m.time_updated,
        subscribers: m.subscribers,
        available: m.available,
        creator: m.creator.clone(),
    }
}

/// Garry's Mod's Steam app ID.
pub const GMOD_APP_ID: u64 = 4000;

/// One Workshop search hit.
#[derive(Clone, Debug)]
pub struct WorkshopSearchItem {
    pub id: String,
    pub meta: ItemMeta,
}

/// Each ID in `items` to the app of the last entry that carries both.
pub open spec fn apps_by_id(items: Seq<Json>) -> Map<Seq<char>, u64>
    decreases items.len(),
{
    if items.len() == 0 {
        Map::empty()
    } else {
        let last = items.last();
        match (last.at("publishedfileid"@).str_of(), last.at("consumer_app_id"@).u64_of()) {
            (Some(id), Some(app)) => apps_by_id(items.drop_last()).insert(id, app),
            _ => apps_by_id(items.drop_last()),
        }
    }
}

pub open spec fn spec_apps(value: Json) -> Map<Seq<char>, u64> {
    match details_list(value) {
        Some(items) => apps_by_id(items),
        None => Map::empty(),
    }
}

/// The search hits for `ids`, in order: each ID once, for an item of Garry's Mod that Steam
/// resolved, with the entry that describes it.
pub open spec fn picked(
    ids: Seq<Seq<char>>,
    apps: Map<Seq<char>, u64>,
    entries: Map<Seq<char>, Json>,
    taken: Set<Seq<char>>,
) -> Seq<(Seq<char>, Json)>
    decreases ids.len(),
{
    if ids.len() == 0 {
        seq![]
    } else {
        let id = ids[0];
        if apps.contains_key(id) && apps[id] == GMOD_APP_ID && entries.contains_key(id)
            && !taken.contains(id) {
            let rest = picked(ids.drop_first(), apps, entries, taken.insert(id));
            if resolved(entries[id]) {
                seq![(id, entries[id])] + rest
            } else {
                rest
            }
        } else {
            picked(ids.drop_first(), apps, entries, taken)
        }
    }
}

pub open spec fn hits_match(r: Seq<WorkshopSearchItem>, p: Seq<(Seq<char>, Json)>) -> bool {
    &&& r.len() == p.len()
    &&& forall|i: int| 0 <= i < r.len() ==> (#[trigger] r[i]).id@ == p[i].0 && meta_from(r[i].meta, p[i].1)
}

fn app_ids(value: &Json) -> (r: IdMap<u64>)
    ensures
        r.wf(),
        r@ == spec_apps(*value),
{
    let mut apps: IdMap<u64> = IdMap::new();
    let items = match details_entries(value) {
        Some(items) => items,
        None => {
            return apps;
        },
    };
    let mut i: usize = 0;
    while i < items.len()
        invariant
            i <= items@.len(),
            details_list(*value) == Some(items@),
            apps.wf(),
            apps@ == apps_by_id(items@.take(i as int)),
        decreases items.len() - i,
    {
        assert(items@.take(i + 1).drop_last() =~= items@.take(i as int));
        assert(items@.take(i + 1).last() == items@[i as int]);
        let item = &items[i];
        match (str_at(item, "publishedfileid"), u64_at(item, "consumer_app_id")) {
            (Some(id), Some(app)) => {
                apps.insert(id.to_string(), app);
            },
            _ => {},
        }
        i = i + 1;
    }
    assert(items@.take(i as int) =~= items@);
    apps
}

/// The search hits among `ids`, given the details response for them: items of Garry's Mod that
/// Steam resolved, in the order of `ids`, each once.
pub fn search_results(ids: &Vec<String>, details: &Json) -> (r: Vec<WorkshopSearchItem>)
    ensures
        hits_match(
            r@,
            picked(str_views(ids@), spec_apps(*details), spec_details(*details), Set::empty()),
        ),
{
    let apps = app_ids(details);
    let found = parse_details(details);
    let ghost all = str_views(ids@);
    let ghost entries = spec_details(*details);
    let ghost appm = spec_apps(*details);
    let mut taken: Vec<String> = Vec::new();
    let mut r: Vec<WorkshopSearchItem> = Vec::new();
    let ghost mut acc: Seq<(Seq<char>, Json)> = seq![];
    let mut i: usize = 0;
    assert(all.skip(0) =~= all);
    assert(str_views(taken@).to_set() =~= Set::<Seq<char>>::empty());
    assert(acc + picked(all.skip(0), appm, entries, Set::empty()) =~= picked(all, appm, entries, Set::empty()));
    while i < ids.len()
        invariant
            i <= ids@.len(),
            all == str_views(ids@),
            apps.wf(),
            apps@ == appm,
            found.wf(),
            metas_from(found@, entries),
            hits_match(r@, acc),
            acc + picked(all.skip(i as int), appm, entries, str_views(taken@).to_set()) == picked(
                all,
                appm,
                entries,
                Set::empty(),
            ),
        decreases ids.len() - i,
    {
        let ghost rest = all.skip(i as int);
        let ghost tk = str_views(taken@).to_set();
        assert(rest.drop_first() =~= all.skip(i + 1));
        assert(rest[0] == ids@[i as int]@);
        let id = ids[i].as_str();
        let gmod = match apps.get(id) {
            Some(app) => *app == GMOD_APP_ID,
            None => false,
        };
        if gmod && !crate::library::contains_str(&taken, id) {
            match found.get(id) {
                Some(meta) => {
                    let ghost before = str_views(taken@);
                    taken.push(ids[i].clone());
                    assert(str_views(taken@) =~= before.push(id@));
                    proof {
                        before.lemma_push_to_set_commute(id@);
                    }
                    if meta.available {
                        let hit = WorkshopSearchItem { id: ids[i].clone(), meta: copy_meta(meta) };
                        let ghost prior = r@;
                        r.push(hit);
                        proof {
                            let e = entries[id@];
                            assert(seq![(id@, e)] + picked(all.skip(i + 1), appm, entries, tk.insert(id@))
                                == picked(rest, appm, entries, tk));
                            acc = acc.push((id@, e));
                            assert(acc + picked(all.skip(i + 1), appm, entries, tk.insert(id@)) =~=
                                (acc.drop_last() + (seq![(id@, e)] + picked(all.skip(i + 1), appm, entries, tk.insert(id@)))));
                            assert(r@ =~= prior.push(hit));
                            assert forall|k: int| 0 <= k < r@.len() implies (#[trigger] r@[k]).id@ == acc[k].0
                                && meta_from(r@[k].meta, acc[k].1) by {
                                if k < prior.len() {
                                    assert(r@[k] == prior[k]);
                                }
                            }
                        }
                    }
                },
                None => {},
            }
        }
        i = i + 1;
    }
    assert(all.skip(i as int) =~= Seq::<Seq<char>>::empty());
    assert(acc + seq![] =~= acc);
    r
}

/// What a search asks Steam for: one item named by its ID, or a text search.
#[derive(Clone, Debug)]
pub enum SearchRequest {
    Item(String),
    Browse(String),
}

/// The Workshop ID a query names directly: the query itself when it is all digits, else the
/// digits right after its first `id=`.
pub open spec fn direct_id(q: Seq<char>) -> Option<Seq<char>> {
    if all_digits(q) {
        Some(q)
    } else {
        let f = find(q, "id="@);
        if f < 0 {
            None
        } else {
            let n = digit_run(q, f + 3);
            if n > 0 {
                Some(q.subrange(f + 3, f + 3 + n))
            } else {
                None
            }
        }
    }
}

pub open spec fn spec_search_request(query: Seq<char>, page: usize) -> Result<
    Option<Seq<char>>,
    Seq<char>,
> {
    let q = trim(query);
    if q.len() < 2 || q.len() > 100 {
        Err("Type at least 2 characters."@)
    } else if page < 1 || page > 100 {
        Err("Search page is out of range."@)
    } else {
        Ok(direct_id(q))
    }
}

pub open spec fn request_view(r: SearchRequest) -> Option<Seq<char>> {
    match r {
        SearchRequest::Item(id) => Some(id@),
        SearchRequest::Browse(_) => None,
    }
}

/// Checks a search and decides what to ask Steam: the item itself when the query names one,
/// else a text search for the trimmed query.
pub fn search_request(query: &str, page: usize) -> (r: Result<SearchRequest, String>)
    ensures
        match r {
            Ok(req) => spec_search_request(query@, page) == Ok::<_, Seq<char>>(request_view(req))
                && (req matches SearchRequest::Browse(t) ==> t@ == trim(query@)),
            Err(e) => spec_search_request(query@, page) == Err::<Option<Seq<char>>, _>(e@),
        },
{
    let q = trim_chars(&chars_of(query));
    if q.len() < 2 || q.len() > 100 {
        return Err("Type at least 2 characters.".to_string());
    }
    if page < 1 || page > 100 {
        return Err("Search page is out of range.".to_string());
    }
    if digits_only(&q) {
        return Ok(SearchRequest::Item(string_of(&q)));
    }
    let marker = chars_of("id=");
    proof {
        reveal_strlit("id=");
    }
    match find_chars_from(&q, &marker, 0) {
        Some(f) => {
            proof {
                lemma_find_from(q@, marker@, 0);
            }
            let start = f + 3;
            let mut end = start;
            while end < q.len() && '0' <= q[end] && q[end] <= '9'
                invariant
                    start <= end <= q@.len(),
                    digit_run(q@, start as int) == (end - start) + digit_run(q@, end as int),
                decreases q.len() - end,
            {
                end = end + 1;
            }
            if end > start {
                let mut id: Vec<char> = Vec::new();
                let mut k = start;
                while k < end
                    invariant
                        start <= k <= end,
                        end <= q@.len(),
                        id@ == q@.subrange(start as int, k as int),
                    decreases end - k,
                {
                    id.push(q[k]);
                    k = k + 1;
                    assert(id@ =~= q@.subrange(start as int, k as int));
                }
                return Ok(SearchRequest::Item(string_of(&id)));
            }
        },
        None => {},
    }
    Ok(SearchRequest::Browse(string_of(&q)))
}

/// A search returns each item once, and none that was already taken.
pub proof fn lemma_picked_distinct(
    ids: Seq<Seq<char>>,
    apps: Map<Seq<char>, u64>,
    entries: Map<Seq<char>, Json>,
    taken: Set<Seq<char>>,
)
    ensures
        forall|a: int, b: int|
            0 <= a < b < picked(ids, apps, entries, taken).len() ==> (#[trigger] picked(
                ids,
                apps,
                entries,
                taken,
            )[a]).0 != (#[trigger] picked(ids, apps, entries, taken)[b]).0,
        forall|a: int|
            0 <= a < picked(ids, apps, entries, taken).len() ==> !taken.contains(
                (#[trigger] picked(ids, apps, entries, taken)[a]).0,
            ),
    decreases ids.len(),
{
    if ids.len() > 0 {
        let id = ids[0];
        lemma_picked_distinct(ids.drop_first(), apps, entries, taken.insert(id));
        lemma_picked_distinct(ids.drop_first(), apps, entries, taken);
        let p = picked(ids, apps, entries, taken);
        if apps.contains_key(id) && apps[id] == GMOD_APP_ID && entries.contains_key(id)
            && !taken.contains(id) && !resolved(entries[id]) {
            let rest = picked(ids.drop_first(), apps, entries, taken.insert(id));
            assert(p == rest);
            assert forall|a: int| 0 <= a < p.len() implies !taken.contains((#[trigger] p[a]).0) by {
                assert(!taken.insert(id).contains(rest[a].0));
            }
        } else if !(apps.contains_key(id) && apps[id] == GMOD_APP_ID && entries.contains_key(id)
            && !taken.contains(id)) {
            assert(p == picked(ids.drop_first(), apps, entries, taken));
        }
        if apps.contains_key(id) && apps[id] == GMOD_APP_ID && entries.contains_key(id)
            && !taken.contains(id) && resolved(entries[id]) {
            let rest = picked(ids.drop_first(), apps, entries, taken.insert(id));
            let all = seq![(id, entries[id])] + rest;
            assert(p == all);
            assert forall|a: int| 0 <= a < all.len() implies !taken.contains((#[trigger] all[a]).0) by {
                if a > 0 {
                    assert(all[a] == rest[a - 1]);
                    assert(!taken.insert(id).contains(rest[a - 1].0));
                }
            }
            assert forall|a: int, b: int| 0 <= a < b < all.len() implies (#[trigger] all[a]).0 != (
            #[trigger] all[b]).0 by {
                assert(all[b] == rest[b - 1]);
                assert(!taken.insert(id).contains(rest[b - 1].0));
                if a > 0 {
                    assert(all[a] == rest[a - 1]);
                }
            }
        }
    }
}

pub proof fn lemma_picked_resolved(
    ids: Seq<Seq<char>>,
    apps: Map<Seq<char>, u64>,
    entries: Map<Seq<char>, Json>,
    taken: Set<Seq<char>>,
)
    ensures
        picked(ids, apps, entries, taken).len() <= ids.len(),
        forall|k: int|
            0 <= k < picked(ids, apps, entries, taken).len() ==> resolved(
                (#[trigger] picked(ids, apps, entries, taken)[k]).1,
            ),
    decreases ids.len(),
{
    if ids.len() > 0 {
        let id = ids[0];
        lemma_picked_resolved(ids.drop_first(), apps, entries, taken.insert(id));
        lemma_picked_resolved(ids.drop_first(), apps, entries, taken);
        if apps.contains_key(id) && apps[id] == GMOD_APP_ID && entries.contains_key(id)
            && !taken.contains(id) && resolved(entries[id]) {
            let rest = picked(ids.drop_first(), apps, entries, taken.insert(id));
            assert forall|k: int| 0 <= k < rest.len() + 1 implies resolved(
                (seq![(id, entries[id])] + rest)[k].1,
            ) by {
                if k > 0 {
                    assert((seq![(id, entries[id])] + rest)[k] == rest[k - 1]);
                }
            }
        }
    }
}

/// The search for `ids`: nothing when there are none; else the text `details` answered when
/// asked for them, read as JSON, decides; a failed request or text that is no JSON fails the
/// search with its error.
pub open spec fn searched<D: FnOnce(&Vec<String>) -> Result<String, String>>(
    details: D,
    ids: Seq<Seq<char>>,
    r: Result<Vec<WorkshopSearchItem>, String>,
) -> bool {
    if ids.len() == 0 {
        r matches Ok(v) && v@.len() == 0
    } else {
        exists|c: Vec<String>, answer: Result<String, String>|
            str_views(c@) == ids && #[trigger] call_ensures(details, (&c,), answer) && match answer_json(
                answer,
            ) {
                Err(e) => r matches Err(m) && m@ == e,
                Ok(d) => r matches Ok(v) && hits_match(
                    v@,
                    picked(ids, spec_apps(d), spec_details(d), Set::empty()),
                ),
            }
    }
}

/// Searches the Workshop: `browse` fetches a result page for a text and page number, `details`
/// the text of the details response for a list of IDs, which is read as JSON. A query that names an item asks for that item; any
/// other asks `browse` for the trimmed query and takes the first 30 distinct items the page
/// links. Only items of Garry's Mod that Steam resolved are returned, each once.
pub fn search_workshop<
    B: FnOnce(&str, usize) -> Result<String, String>,
    D: FnOnce(&Vec<String>) -> Result<String, String>,
>(query: &str, page: usize, browse: B, details: D) -> (r: Result<Vec<WorkshopSearchItem>, String>)
    requires
        forall|t: &str, p: usize| call_requires(browse, (t, p)),
        forall|ids: &Vec<String>| call_requires(details, (ids,)),
    ensures
        spec_search_request(query@, page) matches Err(e) ==> (r matches Err(m) && m@ == e),
        spec_search_request(query@, page) matches Ok(Some(id)) ==> searched(details, seq![id], r),
        spec_search_request(query@, page) matches Ok(None) ==> exists|
            text: &str,
            answer: Result<String, String>,
        |
            text@ == trim(query@) && #[trigger] call_ensures(browse, (text, page), answer) && match answer {
                Err(e) => r matches Err(m) && m@ == e@,
                Ok(html) => searched(
                    details,
                    scan_ids(html@, SEARCH_LINK@, 0, seq![], Some(30)),
                    r,
                ),
            },
        r matches Ok(v) ==> v@.len() <= 30 && forall|k: int| 0 <= k < v@.len() ==> (#[trigger] v@[k]).meta.available,
{
    let req = match search_request(query, page) {
        Err(e) => {
            return Err(e);
        },
        Ok(req) => req,
    };
    match req {
        SearchRequest::Item(id) => {
            let mut ids: Vec<String> = Vec::new();
            ids.push(id);
            assert(str_views(ids@) =~= seq![ids@[0]@]);
            details_search(ids, details)
        },
        SearchRequest::Browse(text) => {
            let t = text.as_str();
            let answer = browse(t, page);
            proof {
                assert(call_ensures(browse, (t, page), answer));
            }
            match answer {
                Err(e) => Err(e),
                Ok(html) => {
                    let ids = workshop_ids_from_search_html(html.as_str());
                    proof {
                        lemma_scan_limit(html@, SEARCH_LINK@, 0, seq![], 30);
                    }
                    details_search(ids, details)
                },
            }
        },
    }
}

/// The search hits for `ids`, from the details `details` gives for them.
fn details_search<D: FnOnce(&Vec<String>) -> Result<String, String>>(ids: Vec<String>, details: D) -> (r:
    Result<Vec<WorkshopSearchItem>, String>)
    requires
        forall|c: &Vec<String>| call_requires(details, (c,)),
    ensures
        searched(details, str_views(ids@), r),
        r matches Ok(v) ==> v@.len() <= ids@.len() && forall|k: int|
            0 <= k < v@.len() ==> (#[trigger] v@[k]).meta.available,
{
    if ids.len() == 0 {
        return Ok(Vec::new());
    }
    let raw = details(&ids);
    proof {
        assert(call_ensures(details, (&ids,), raw));
    }
    let answer = read_answer(raw);
    let d = match answer {
        Err(e) => {
            return Err(e);
        },
        Ok(d) => d,
    };
    let hits = search_results(&ids, &d);
    proof {
        lemma_picked_resolved(str_views(ids@), spec_apps(d), spec_details(d), Set::empty());
        let p = picked(str_views(ids@), spec_apps(d), spec_details(d), Set::empty());
        assert forall|k: int| 0 <= k < hits@.len() implies (#[trigger] hits@[k]).meta.available by {
            assert(meta_from(hits@[k].meta, p[k].1));
            assert(resolved(p[k].1));
        }
    }
    Ok(hits)
}

/// Where a Steam profile's XML holds the display name.
pub const NAME_START: &'static str = "<steamID><![CDATA[";

pub const NAME_END: &'static str = "]]>";

/// The display name in a Steam profile's XML: the trimmed text of its `steamID` element.
pub open spec fn spec_profile_name(xml: Seq<char>) -> Result<Seq<char>, Seq<char>> {
    let f = find(xml, NAME_START@);
    if f < 0 {
        Err("Profile has no name"@)
    } else {
        let start = f + NAME_START@.len();
        let rest = xml.subrange(start, xml.len() as int);
        let e = find(rest, NAME_END@);
        if e < 0 {
            Err("Profile has no name"@)
        } else {
            let name = trim(rest.subrange(0, e));
            if name.len() == 0 {
                Err("Profile has no name"@)
            } else {
                Ok(name)
            }
        }
    }
}

/// Reads the display name out of a Steam profile's XML.
pub fn profile_name(xml: &str) -> (r: Result<String, String>)
    ensures
        string_result(r) == spec_profile_name(xml@),
{
    let x = chars_of(xml);
    let open = chars_of(NAME_START);
    let close = chars_of(NAME_END);
    let f = match find_chars_from(&x, &open, 0) {
        None => {
            return Err("Profile has no name".to_string());
        },
        Some(f) => f,
    };
    proof {
        lemma_find_from(x@, open@, 0);
    }
    let n = x.len();
    assert(f + open@.len() <= n);
    let start = f + open.len();
    let mut rest: Vec<char> = Vec::new();
    let mut k = start;
    while k < x.len()
        invariant
            start <= k <= x@.len(),
            rest@ == x@.subrange(start as int, k as int),
        decreases x.len() - k,
    {
        rest.push(x[k]);
        k = k + 1;
        assert(rest@ =~= x@.subrange(start as int, k as int));
    }
    let e = match find_chars_from(&rest, &close, 0) {
        None => {
            return Err("Profile has no name".to_string());
        },
        Some(e) => e,
    };
    proof {
        lemma_find_from(rest@, close@, 0);
    }
    let mut raw: Vec<char> = Vec::new();
    let mut j: usize = 0;
    while j < e
        invariant
            j <= e,
            e <= rest@.len(),
            raw@ == rest@.subrange(0, j as int),
        decreases e - j,
    {
        raw.push(rest[j]);
        j = j + 1;
        assert(raw@ =~= rest@.subrange(0, j as int));
    }
    let name = trim_chars(&raw);
    if name.len() == 0 {
        return Err("Profile has no name".to_string());
    }
    Ok(string_of(&name))
}

/// The display name of a Steam user; `fetch` gives the XML of a profile by SteamID64.
pub fn author_name<F: FnOnce(&str) -> Result<String, String>>(steam_id: &str, fetch: F) -> (r:
    Result<String, String>)
    requires
        forall|s: &str| call_requires(fetch, (s,)),
    ensures
        !is_numeric(steam_id@) ==> (r matches Err(e) && e@ == "Invalid Steam ID"@),
        is_numeric(steam_id@) ==> exists|answer: Result<String, String>|
            #[trigger] call_ensures(fetch, (steam_id,), answer) && string_result(r) == match answer {
                Err(e) => Err(e@),
                Ok(xml) => spec_profile_name(xml@),
            },
        r matches Ok(name) ==> name@.len() > 0 && name@ == trim(name@),
{
    if !numeric(steam_id) {
        return Err("Invalid Steam ID".to_string());
    }
    let answer = fetch(steam_id);
    let xml = match answer {
        Err(e) => {
            return Err(e);
        },
        Ok(x) => x,
    };
    let r = profile_name(xml.as_str());
    proof {
        if let Ok(name) = spec_profile_name(xml@) {
            let f = find(xml@, NAME_START@);
            let start = f + NAME_START@.len();
            let rest = xml@.subrange(start, xml@.len() as int);
            lemma_trim_idempotent(rest.subrange(0, find(rest, NAME_END@)));
        }
    }
    r
}

/// A copy of a map of item details, entry by entry.
fn extend_metas(all: &mut IdMap<ItemMeta>, more: &IdMap<ItemMeta>)
    requires
        old(all).wf(),
        more.wf(),
    ensures
        final(all).wf(),
        final(all)@.dom() == old(all)@.dom().union(more@.dom()),
        forall|id: Seq<char>| #[trigger] more@.contains_key(id) ==> same_meta(final(all)@[id], more@[id]),
        forall|id: Seq<char>|
            old(all)@.contains_key(id) && !more@.contains_key(id) ==> #[trigger] final(all)@[id]
                == old(all)@[id],
{
    let n = more.len();
    let ghost start = all@;
    let mut i: usize = 0;
    proof {
        more.lemma_wf();
    }
    while i < n
        invariant
            n == more.key_seq().len(),
            i <= n,
            more.wf(),
            all.wf(),
            more.view().dom() == more.key_seq().to_set(),
            all@.dom() == start.dom().union(more.key_seq().take(i as int).to_set()),
            forall|k: int| 0 <= k < i ==> same_meta(all@[more.key_seq()[k]], more@[more.key_seq()[k]]),
            more.key_seq().no_duplicates(),
            forall|id: Seq<char>|
                start.contains_key(id) && !more.key_seq().take(i as int).contains(id) ==> #[trigger] all@[id]
                    == start[id],
        decreases n - i,
    {
        let (k, v) = more.entry(i);
        let ghost before = all@;
        all.insert(k.clone(), copy_meta(v));
        proof {
            let ks = more.key_seq();
            assert(ks.take(i + 1) =~= ks.take(i as int).push(ks[i as int]));
            ks.take(i as int).lemma_push_to_set_commute(ks[i as int]);
            assert forall|j: int| 0 <= j < i + 1 implies same_meta(all@[ks[j]], more@[ks[j]]) by {
                if j < i {
                    assert(ks[j] != ks[i as int]);
                }
            }
            assert forall|id: Seq<char>| start.contains_key(id) && !ks.take(i + 1).contains(id) implies #[trigger] all@[id] == start[id] by {
                assert(ks.take(i + 1)[i as int] == ks[i as int]);
                if id == ks[i as int] {
                    assert(ks.take(i + 1).contains(id));
                }
                if ks.take(i as int).contains(id) {
                    let j = choose|j: int| 0 <= j < i && ks.take(i as int)[j] == id;
                    assert(ks.take(i + 1)[j] == id);
                }
            }
        }
        i = i + 1;
    }
    proof {
        assert(more.key_seq().take(n as int) =~= more.key_seq());
        assert forall|id: Seq<char>| #[trigger] more@.contains_key(id) implies same_meta(all@[id], more@[id]) by {
            let ks = more.key_seq();
            assert(ks.to_set().contains(id));
            let j = choose|j: int| 0 <= j < ks.len() && ks[j] == id;
        }
        assert forall|id: Seq<char>| start.contains_key(id) && !more@.contains_key(id) implies #[trigger] all@[id] == start[id] by {
            let ks = more.key_seq();
            if ks.contains(id) {
                let j = choose|j: int| 0 <= j < ks.len() && ks[j] == id;
                assert(ks.to_set().contains(id));
            }
        }
    }
}

pub open spec fn same_meta(a: ItemMeta, b: ItemMeta) -> bool {
    &&& a.title@ == b.title@
    &&& a.size == b.size
    &&& a.preview_url@ == b.preview_url@
    &&& a.time_updated == b.time_updated
    &&& a.subscribers == b.subscribers
    &&& a.available == b.available
    &&& a.creator@ == b.creator@
}

/// Steam answers details requests for at most this many items at once.
pub const DETAILS_CHUNK: usize = 100;

fn chunk_of(ids: &Vec<String>, start: usize, end: usize) -> (r: Vec<String>)
    requires
        start <= end <= ids@.len(),
    ensures
        str_views(r@) == str_views(ids@).subrange(start as int, end as int),
{
    let mut r: Vec<String> = Vec::new();
    let mut k = start;
    while k < end
        invariant
            start <= k <= end,
            end <= ids@.len(),
            str_views(r@) == str_views(ids@).subrange(start as int, k as int),
        decreases end - k,
    {
        let ghost before = str_views(r@);
        r.push(ids[k].clone());
        assert(str_views(r@) =~= before.push(ids@[k as int]@));
        k = k + 1;
        assert(str_views(r@) =~= str_views(ids@).subrange(start as int, k as int));
    }
    r
}

/// `ids` in the runs Steam is asked for: `DETAILS_CHUNK` at a time, in order.
pub open spec fn chunks(ids: Seq<Seq<char>>) -> Seq<Seq<Seq<char>>>
    decreases ids.len(),
{
    if ids.len() == 0 {
        seq![]
    } else if ids.len() <= DETAILS_CHUNK {
        seq![ids]
    } else {
        seq![ids.take(DETAILS_CHUNK as int)] + chunks(ids.skip(DETAILS_CHUNK as int))
    }
}

proof fn lemma_chunks_step(v: Seq<Seq<char>>, start: int, end: int)
    requires
        0 <= start < end <= v.len(),
        end == if v.len() - start > DETAILS_CHUNK {
            start + DETAILS_CHUNK
        } else {
            v.len() as int
        },
    ensures
        chunks(v.skip(start)) == seq![v.subrange(start, end)] + chunks(v.skip(end)),
{
    let w = v.skip(start);
    if w.len() <= DETAILS_CHUNK {
        assert(w =~= v.subrange(start, end));
        assert(v.skip(end) =~= Seq::<Seq<char>>::empty());
        assert(chunks(v.skip(end)) =~= Seq::<Seq<Seq<char>>>::empty());
        assert(chunks(w) =~= seq![v.subrange(start, end)] + chunks(v.skip(end)));
    } else {
        assert(w.take(DETAILS_CHUNK as int) =~= v.subrange(start, end));
        assert(w.skip(DETAILS_CHUNK as int) =~= v.skip(end));
    }
}

/// `fetch`, asked for the items `chunk`, gave a text that reads as `answer` (or failed with
/// `answer`'s error).
pub open spec fn answered<F: FnMut(&Vec<String>) -> Result<String, String>>(
    fetch: F,
    chunk: Seq<Seq<char>>,
    answer: Result<Json, Seq<char>>,
) -> bool {
    exists|c: Vec<String>, raw: Result<String, String>|
        str_views(c@) == chunk && #[trigger] call_ensures(fetch, (&c,), raw) && answer_json(raw)
            == answer
}

/// `fetch` answered the first `answers.len()` chunks of `ids`, in order, with `answers`.
pub open spec fn chunks_answered<F: FnMut(&Vec<String>) -> Result<String, String>>(
    fetch: F,
    ids: Seq<Seq<char>>,
    answers: Seq<Json>,
) -> bool {
    &&& answers.len() <= chunks(ids).len()
    &&& forall|i: int|
        0 <= i < answers.len() ==> answered(fetch, chunks(ids)[i], Ok(#[trigger] answers[i]))
}

/// The entries of several details responses; a later response's entry for an ID wins.
pub open spec fn answered_entries(answers: Seq<Json>) -> Map<Seq<char>, Json>
    decreases answers.len(),
{
    if answers.len() == 0 {
        Map::empty()
    } else {
        answered_entries(answers.drop_last()).union_prefer_right(spec_details(answers.last()))
    }
}

proof fn lemma_extend_entries(
    before: Map<Seq<char>, ItemMeta>,
    more: Map<Seq<char>, ItemMeta>,
    after: Map<Seq<char>, ItemMeta>,
    e: Map<Seq<char>, Json>,
    d: Map<Seq<char>, Json>,
)
    requires
        metas_from(before, e),
        metas_from(more, d),
        after.dom() == before.dom().union(more.dom()),
        forall|id: Seq<char>| #[trigger] more.contains_key(id) ==> same_meta(after[id], more[id]),
        forall|id: Seq<char>|
            before.contains_key(id) && !more.contains_key(id) ==> #[trigger] after[id] == before[id],
    ensures
        metas_from(after, e.union_prefer_right(d)),
{
    let u = e.union_prefer_right(d);
    assert(after.dom() =~= u.dom());
    assert forall|id: Seq<char>| #[trigger] after.contains_key(id) implies meta_from(after[id], u[id]) by {
        if more.contains_key(id) {
            assert(meta_from(more[id], d[id]));
        } else {
            assert(meta_from(before[id], e[id]));
        }
    }
}

/// What a details lookup for `ids` through `fetch` gives: on success the entries of the answers
/// to all its chunks, asked for in order; on failure the error of the first failed request.
pub open spec fn meta_fetched<F: FnMut(&Vec<String>) -> Result<String, String>>(
    fetch: F,
    ids: Seq<Seq<char>>,
    r: Result<IdMap<ItemMeta>, String>,
) -> bool {
    match r {
        Ok(m) => m.wf() && exists|answers: Seq<Json>|
            {
                &&& #[trigger] chunks_answered(fetch, ids, answers)
                &&& answers.len() == chunks(ids).len()
                &&& metas_from(m@, answered_entries(answers))
            },
        Err(e) => exists|answers: Seq<Json>|
            {
                &&& #[trigger] chunks_answered(fetch, ids, answers)
                &&& answers.len() < chunks(ids).len()
                &&& answered(fetch, chunks(ids)[answers.len() as int], Err(e@))
            },
    }
}

/// Details for `ids`, asked for `DETAILS_CHUNK` at a time through `fetch`, in order: the
/// entries of all the answers, each read as JSON, later ones winning. A failed request, or an
/// answer that is no JSON, fails the whole lookup with its error, and nothing more is asked.
pub fn fetch_meta<F: FnMut(&Vec<String>) -> Result<String, String>>(ids: &Vec<String>, fetch: F) -> (r:
    Result<IdMap<ItemMeta>, String>)
    requires
        forall|c: &Vec<String>| call_requires(fetch, (c,)),
    ensures
        meta_fetched(fetch, str_views(ids@), r),
{
    let ghost v = str_views(ids@);
    let mut ask = fetch;
    let ghost mut done: Seq<Json> = seq![];
    let ghost mut asked: Seq<Seq<Seq<char>>> = seq![];
    let mut all: IdMap<ItemMeta> = IdMap::new();
    let mut start: usize = 0;
    assert(v.skip(0) =~= v);
    assert(metas_from(all@, answered_entries(done))) by {
        assert(all@.dom() =~= answered_entries(done).dom());
    }
    while start < ids.len()
        invariant
            start <= ids@.len(),
            v == str_views(ids@),
            ask == fetch,
            all.wf(),
            forall|c: &Vec<String>| call_requires(ask, (c,)),
            chunks(v) == asked + chunks(v.skip(start as int)),
            asked.len() == done.len(),
            forall|i: int|
                0 <= i < done.len() ==> answered(fetch, asked[i], Ok(#[trigger] done[i])),
            metas_from(all@, answered_entries(done)),
        decreases ids.len() - start,
    {
        let end = if ids.len() - start > DETAILS_CHUNK {
            start + DETAILS_CHUNK
        } else {
            ids.len()
        };
        let chunk = chunk_of(ids, start, end);
        proof {
            lemma_chunks_step(v, start as int, end as int);
            assert(chunks(v)[asked.len() as int] == v.subrange(start as int, end as int));
            assert(chunks_answered(fetch, v, done)) by {
                assert forall|i: int| 0 <= i < done.len() implies answered(fetch, chunks(v)[i], Ok(#[trigger] done[i])) by {
                    assert(chunks(v)[i] == asked[i]);
                }
            }
        }
        let raw = ask(&chunk);
        proof {
            assert(call_ensures(fetch, (&chunk,), raw));
        }
        let answer = read_answer(raw);
        proof {
            assert(answered(fetch, v.subrange(start as int, end as int), crate::json::parsed_view(answer)));
        }
        let d = match answer {
            Err(e) => {
                proof {
                    assert(done.len() < chunks(v).len());
                }
                return Err(e);
            },
            Ok(d) => d,
        };
        let more = parse_details(&d);
        let ghost before = all@;
        extend_metas(&mut all, &more);
        proof {
            lemma_extend_entries(before, more@, all@, answered_entries(done), spec_details(d));
            let next = done.push(d);
            assert(next.drop_last() =~= done);
            done = next;
            asked = asked.push(v.subrange(start as int, end as int));
            assert(chunks(v) =~= asked + chunks(v.skip(end as int)));
        }
        start = end;
    }
    proof {
        assert(v.skip(start as int) =~= Seq::<Seq<char>>::empty());
        assert(chunks(v) =~= asked);
        assert forall|i: int| 0 <= i < done.len() implies answered(fetch, chunks(v)[i], Ok(#[trigger] done[i])) by {
            assert(chunks(v)[i] == asked[i]);
        }
        assert(chunks_answered(fetch, v, done));
    }
    Ok(all)
}

/// The first entry of a details response for one of `chunk` that is not a resolved item of
/// Garry's Mod, as an error.
pub open spec fn chunk_error(chunk: Seq<Seq<char>>, items: Seq<Json>) -> Option<Seq<char>>
    decreases items.len(),
{
    if items.len() == 0 {
        None
    } else {
        let it = items[0];
        let id = text_of(it.at("publishedfileid"@));
        if chunk.contains(id) && (it.at("result"@).i64_of() != Some(1i64) || it.at(
            "consumer_app_id"@,
        ).u64_of() != Some(GMOD_APP_ID)) {
            Some("Required mod "@ + id + " is unavailable for GMod."@)
        } else {
            chunk_error(chunk, items.drop_first())
        }
    }
}

/// Checks the details of one requested chunk of required items.
pub fn check_dependency_chunk(chunk: &Vec<String>, details: &Json) -> (r: Result<(), String>)
    ensures
        match details_list(*details) {
            None => r matches Err(e) && e@ == "Steam did not return dependency details"@,
            Some(items) => match chunk_error(str_views(chunk@), items) {
                None => r is Ok,
                Some(m) => r matches Err(e) && e@ == m,
            },
        },
{
    let items = match details_entries(details) {
        None => {
            return Err("Steam did not return dependency details".to_string());
        },
        Some(items) => items,
    };
    let ghost all = items@;
    let mut i: usize = 0;
    assert(all.skip(0) =~= all);
    while i < items.len()
        invariant
            i <= all.len(),
            all == items@,
            details_list(*details) == Some(all),
            chunk_error(str_views(chunk@), all) == chunk_error(str_views(chunk@), all.skip(i as int)),
        decreases items.len() - i,
    {
        assert(all.skip(i as int).drop_first() =~= all.skip(i + 1));
        assert(all.skip(i as int)[0] == all[i as int]);
        let it = &items[i];
        let id = text_at(it, "publishedfileid");
        if crate::library::contains_str(chunk, id.as_str()) && (i64_at(it, "result") != Some(1i64)
            || u64_at(it, "consumer_app_id") != Some(GMOD_APP_ID)) {
            let mut m: Vec<char> = Vec::new();
            crate::text::push_str(&mut m, "Required mod ");
            crate::text::push_str(&mut m, id.as_str());
            crate::text::push_str(&mut m, " is unavailable for GMod.");
            return Err(string_of(&m));
        }
        i = i + 1;
    }
    Ok(())
}

/// Why the details of one chunk of required items are refused, if they are.
pub open spec fn dependency_check(chunk: Seq<Seq<char>>, answer: Json) -> Option<Seq<char>> {
    match details_list(answer) {
        None => Some("Steam did not return dependency details"@),
        Some(items) => chunk_error(chunk, items),
    }
}

/// The answers for the chunks of `ids` that were asked for all pass the check.
pub open spec fn answers_pass(ids: Seq<Seq<char>>, answers: Seq<Json>) -> bool {
    forall|i: int| 0 <= i < answers.len() ==> dependency_check(chunks(ids)[i], #[trigger] answers[i]) is None
}

/// The error for the first of `ids` that the entries lack or that Steam could not resolve.
pub open spec fn first_unavailable(ids: Seq<Seq<char>>, entries: Map<Seq<char>, Json>) -> Option<
    Seq<char>,
>
    decreases ids.len(),
{
    if ids.len() == 0 {
        None
    } else if !(entries.contains_key(ids[0]) && resolved(entries[ids[0]])) {
        Some("Required mod "@ + ids[0] + " is unavailable."@)
    } else {
        first_unavailable(ids.drop_first(), entries)
    }
}

/// Loads details for every required item through `fetch`, `DETAILS_CHUNK` at a time and in
/// order, as `fetch_meta` does. Each answer is checked before the next request: a missing list,
/// or an entry for a requested item that is not a resolved item of Garry's Mod, fails the
/// lookup. At the end, a required item that is missing or unresolved fails it too, rather than
/// being left out.
pub fn dependency_meta<F: FnMut(&Vec<String>) -> Result<String, String>>(ids: &Vec<String>, fetch: F) -> (r:
    Result<IdMap<ItemMeta>, String>)
    requires
        forall|c: &Vec<String>| call_requires(fetch, (c,)),
    ensures
        match r {
            Ok(m) => m.wf() && exists|answers: Seq<Json>|
                {
                    &&& #[trigger] chunks_answered(fetch, str_views(ids@), answers)
                    &&& answers.len() == chunks(str_views(ids@)).len()
                    &&& answers_pass(str_views(ids@), answers)
                    &&& metas_from(m@, answered_entries(answers))
                    &&& first_unavailable(str_views(ids@), answered_entries(answers)) is None
                },
            Err(e) => exists|answers: Seq<Json>|
                {
                    &&& #[trigger] chunks_answered(fetch, str_views(ids@), answers)
                    &&& answers_pass(str_views(ids@), answers)
                    &&& {
                        ||| answers.len() < chunks(str_views(ids@)).len() && answered(
                            fetch,
                            chunks(str_views(ids@))[answers.len() as int],
                            Err(e@),
                        )
                        ||| answers.len() < chunks(str_views(ids@)).len() && exists|d: Json|
                            answered(fetch, chunks(str_views(ids@))[answers.len() as int], Ok(d))
                                && #[trigger] dependency_check(
                                chunks(str_views(ids@))[answers.len() as int],
                                d,
                            ) == Some(e@)
                        ||| answers.len() == chunks(str_views(ids@)).len() && first_unavailable(
                            str_views(ids@),
                            answered_entries(answers),
                        ) == Some(e@)
                    }
                },
        },
        r matches Ok(m) ==> forall|k: int|
            0 <= k < ids@.len() ==> m@.contains_key(#[trigger] ids@[k]@) && m@[ids@[k]@].available,
{
    let ghost v = str_views(ids@);
    let mut ask = fetch;
    let ghost mut done: Seq<Json> = seq![];
    let ghost mut asked: Seq<Seq<Seq<char>>> = seq![];
    let mut found: IdMap<ItemMeta> = IdMap::new();
    let mut start: usize = 0;
    assert(v.skip(0) =~= v);
    assert(metas_from(found@, answered_entries(done))) by {
        assert(found@.dom() =~= answered_entries(done).dom());
    }
    while start < ids.len()
        invariant
            start <= ids@.len(),
            v == str_views(ids@),
            ask == fetch,
            found.wf(),
            forall|c: &Vec<String>| call_requires(ask, (c,)),
            chunks(v) == asked + chunks(v.skip(start as int)),
            asked.len() == done.len(),
            forall|i: int|
                0 <= i < done.len() ==> answered(fetch, asked[i], Ok(#[trigger] done[i])),
            forall|i: int| 0 <= i < done.len() ==> dependency_check(asked[i], #[trigger] done[i]) is None,
            metas_from(found@, answered_entries(done)),
        decreases ids.len() - start,
    {
        let end = if ids.len() - start > DETAILS_CHUNK {
            start + DETAILS_CHUNK
        } else {
            ids.len()
        };
        let chunk = chunk_of(ids, start, end);
        let ghost here = v.subrange(start as int, end as int);
        proof {
            lemma_chunks_step(v, start as int, end as int);
            assert(chunks(v)[asked.len() as int] == here);
            assert forall|i: int| 0 <= i < done.len() implies answered(fetch, chunks(v)[i], Ok(#[trigger] done[i])) && dependency_check(chunks(v)[i], done[i]) is None by {
                assert(chunks(v)[i] == asked[i]);
            }
            assert(chunks_answered(fetch, v, done));
            assert(answers_pass(v, done));
            assert(done.len() < chunks(v).len());
        }
        let raw = ask(&chunk);
        proof {
            assert(call_ensures(fetch, (&chunk,), raw));
        }
        let answer = read_answer(raw);
        proof {
            assert(answered(fetch, here, crate::json::parsed_view(answer)));
        }
        let d = match answer {
            Err(e) => {
                return Err(e);
            },
            Ok(d) => d,
        };
        match check_dependency_chunk(&chunk, &d) {
            Err(e) => {
                proof {
                    assert(dependency_check(chunks(v)[done.len() as int], d) == Some(e@));
                }
                return Err(e);
            },
            Ok(()) => {},
        }
        let more = parse_details(&d);
        let ghost before = found@;
        extend_metas(&mut found, &more);
        proof {
            lemma_extend_entries(before, more@, found@, answered_entries(done), spec_details(d));
            let next = done.push(d);
            assert(next.drop_last() =~= done);
            done = next;
            asked = asked.push(here);
            assert(chunks(v) =~= asked + chunks(v.skip(end as int)));
        }
        start = end;
    }
    proof {
        assert(v.skip(start as int) =~= Seq::<Seq<char>>::empty());
        assert(chunks(v) =~= asked);
        assert forall|i: int| 0 <= i < done.len() implies answered(fetch, chunks(v)[i], Ok(#[trigger] done[i])) && dependency_check(chunks(v)[i], done[i]) is None by {
            assert(chunks(v)[i] == asked[i]);
        }
        assert(chunks_answered(fetch, v, done));
        assert(answers_pass(v, done));
    }
    let ghost entries = answered_entries(done);
    let mut i: usize = 0;
    assert(v.skip(0) =~= v);
    while i < ids.len()
        invariant
            i <= ids@.len(),
            v == str_views(ids@),
            found.wf(),
            metas_from(found@, entries),
            entries == answered_entries(done),
            chunks_answered(fetch, v, done),
            answers_pass(v, done),
            done.len() == chunks(v).len(),
            first_unavailable(v, entries) == first_unavailable(v.skip(i as int), entries),
            forall|k: int|
                0 <= k < i ==> found@.contains_key(#[trigger] ids@[k]@) && found@[ids@[k]@].available,
        decreases ids.len() - i,
    {
        assert(v.skip(i as int).drop_first() =~= v.skip(i + 1));
        assert(v.skip(i as int)[0] == ids@[i as int]@);
        let ok = match found.get(ids[i].as_str()) {
            Some(m) => m.available,
            None => false,
        };
        if !ok {
            let mut m: Vec<char> = Vec::new();
            crate::text::push_str(&mut m, "Required mod ");
            crate::text::push_str(&mut m, ids[i].as_str());
            crate::text::push_str(&mut m, " is unavailable.");
            proof {
                assert(!(entries.contains_key(v[i as int]) && resolved(entries[v[i as int]])));
                assert(first_unavailable(v, entries) == Some(m@));
            }
            return Err(string_of(&m));
        }
        i = i + 1;
    }
    assert(v.skip(i as int) =~= Seq::<Seq<char>>::empty());
    Ok(found)
}

/// The first collection of a `GetCollectionDetails` response.
pub open spec fn collection_of(value: Json) -> Json {
    value.at("response"@).at("collectiondetails"@).nth(0)
}

/// The IDs of the collection's children that are single items (file type 0), in order.
pub open spec fn child_ids(children: Seq<Json>) -> Seq<Seq<char>>
    decreases children.len(),
{
    if children.len() == 0 {
        seq![]
    } else {
        let c = children.last();
        match c.at("publishedfileid"@).str_of() {
            Some(id) if c.at("filetype"@).i64_of() == Some(0i64) => child_ids(children.drop_last()).push(id),
            _ => child_ids(children.drop_last()),
        }
    }
}

pub open spec fn spec_collection_children(value: Json) -> Result<Seq<Seq<char>>, Seq<char>> {
    let c = collection_of(value);
    if c.at("result"@).i64_of() != Some(1i64) {
        Err("Steam could not load that collection."@)
    } else {
        match c.at("children"@).array_of() {
            None => Err("Steam returned no items"@),
            Some(ch) => Ok(child_ids(ch)),
        }
    }
}

/// The item IDs of a `GetCollectionDetails` response, in collection order.
pub fn collection_children(value: &Json) -> (r: Result<Vec<String>, String>)
    ensures
        match r {
            Ok(ids) => spec_collection_children(*value) == Ok::<_, Seq<char>>(str_views(ids@)),
            Err(e) => spec_collection_children(*value) == Err::<Seq<Seq<char>>, _>(e@),
        },
{
    let c = match value.get("response") {
        Some(resp) => match resp.get("collectiondetails") {
            Some(list) => list.get_index(0),
            None => None,
        },
        None => None,
    };
    let c = match c {
        Some(c) => c,
        None => {
            return Err("Steam could not load that collection.".to_string());
        },
    };
    if i64_at(c, "result") != Some(1i64) {
        return Err("Steam could not load that collection.".to_string());
    }
    let children = match c.get("children") {
        Some(ch) => match ch.as_array() {
            Some(a) => a,
            None => {
                return Err("Steam returned no items".to_string());
            },
        },
        None => {
            return Err("Steam returned no items".to_string());
        },
    };
    let ghost all = children@;
    let mut ids: Vec<String> = Vec::new();
    let mut i: usize = 0;
    while i < children.len()
        invariant
            i <= all.len(),
            all == children@,
            str_views(ids@) == child_ids(all.take(i as int)),
        decreases children.len() - i,
    {
        assert(all.take(i + 1).drop_last() =~= all.take(i as int));
        assert(all.take(i + 1).last() == all[i as int]);
        let ch = &children[i];
        if i64_at(ch, "filetype") == Some(0i64) {
            if let Some(id) = str_at(ch, "publishedfileid") {
                let ghost before = str_views(ids@);
                ids.push(id.to_string());
                assert(str_views(ids@) =~= before.push(id@));
            }
        }
        i = i + 1;
    }
    assert(all.take(i as int) =~= all);
    Ok(ids)
}

/// The number of distinct items of `xs` that are not in `excluded`.
pub fn count_new(xs: &Vec<String>, excluded: &Vec<String>) -> (r: usize)
    ensures
        r == str_views(xs@).to_set().difference(str_views(excluded@).to_set()).len(),
{
    let ghost all = str_views(xs@);
    let ghost ex = str_views(excluded@).to_set();
    let mut seen: Vec<String> = Vec::new();
    let mut count: usize = 0;
    let mut i: usize = 0;
    assert(all.take(0).to_set() =~= Set::<Seq<char>>::empty());
    assert(str_views(seen@).to_set() =~= Set::<Seq<char>>::empty());
    assert(all.take(0).to_set().difference(ex) =~= Set::<Seq<char>>::empty());
    while i < xs.len()
        invariant
            i <= all.len(),
            all == str_views(xs@),
            ex == str_views(excluded@).to_set(),
            str_views(seen@).to_set() == all.take(i as int).to_set(),
            count == all.take(i as int).to_set().difference(ex).len(),
            count <= i,
        decreases xs.len() - i,
    {
        let ghost s0 = all.take(i as int).to_set();
        let x = xs[i].as_str();
        assert(all.take(i + 1) =~= all.take(i as int).push(x@));
        proof {
            all.take(i as int).lemma_push_to_set_commute(x@);
            vstd::seq_lib::seq_to_set_is_finite(all.take(i as int));
        }
        if !crate::library::contains_str(&seen, x) {
            let ghost before = str_views(seen@);
            seen.push(xs[i].clone());
            assert(str_views(seen@) =~= before.push(x@));
            proof {
                before.lemma_push_to_set_commute(x@);
            }
            if !crate::library::contains_str(excluded, x) {
                assert(s0.insert(x@).difference(ex) =~= s0.difference(ex).insert(x@));
                count = count + 1;
            } else {
                assert(s0.insert(x@).difference(ex) =~= s0.difference(ex));
            }
        } else {
            assert(s0.insert(x@) =~= s0);
        }
        i = i + 1;
    }
    assert(all.take(i as int) =~= all);
    count
}

/// The IDs of the items that came from the collection, in order.
pub open spec fn auto_ids(items: Seq<WorkshopItem>) -> Seq<Seq<char>>
    decreases items.len(),
{
    if items.len() == 0 {
        seq![]
    } else if !items.last().manually_added {
        auto_ids(items.drop_last()).push(items.last().id@)
    } else {
        auto_ids(items.drop_last())
    }
}

/// The manually added items whose IDs are not among `ids`, in order.
pub open spec fn kept_manual(items: Seq<WorkshopItem>, ids: Seq<Seq<char>>) -> Seq<WorkshopItem>
    decreases items.len(),
{
    if items.len() == 0 {
        seq![]
    } else if items.last().manually_added && !ids.contains(items.last().id@) {
        kept_manual(items.drop_last(), ids).push(items.last())
    } else {
        kept_manual(items.drop_last(), ids)
    }
}

pub open spec fn title_view(t: Option<String>) -> Option<Seq<char>> {
    match t {
        Some(s) => Some(s@),
        None => None,
    }
}

pub open spec fn same_item(a: WorkshopItem, b: WorkshopItem) -> bool {
    &&& a.id@ == b.id@
    &&& title_view(a.title) == title_view(b.title)
    &&& a.available == b.available
    &&& a.manually_added == b.manually_added
}

/// `it` is the collection item for `id`: titled and marked available from its details.
pub open spec fn collection_item(it: WorkshopItem, id: Seq<char>, meta: Map<Seq<char>, ItemMeta>) -> bool {
    &&& it.id@ == id
    &&& !it.manually_added
    &&& it.available == (meta.contains_key(id) && meta[id].available)
    &&& title_view(it.title) == (if meta.contains_key(id) && meta[id].title@.len() > 0 {
        Some(meta[id].title@)
    } else {
        None
    })
}

/// After a refresh the items are the collection's, in its order, followed by the manually added
/// items that the collection does not hold, in their order.
pub open spec fn merged(
    after: Seq<WorkshopItem>,
    ids: Seq<Seq<char>>,
    before: Seq<WorkshopItem>,
    meta: Map<Seq<char>, ItemMeta>,
) -> bool {
    let kept = kept_manual(before, ids);
    &&& after.len() == ids.len() + kept.len()
    &&& forall|i: int| 0 <= i < ids.len() ==> collection_item(#[trigger] after[i], ids[i], meta)
    &&& forall|j: int| 0 <= j < kept.len() ==> same_item(#[trigger] after[ids.len() + j], kept[j])
}

pub open spec fn item_page_url(id: Seq<char>) -> Seq<char> {
    "https://steamcommunity.com/sharedfiles/filedetails/?id="@ + id
}

/// Everything but the items and the collection link is left as it was.
pub open spec fn same_apart_from_items(a: Profile, b: Profile) -> bool {
    &&& a.schema_version == b.schema_version
    &&& a.id == b.id
    &&& a.name == b.name
    &&& a.description == b.description
    &&& a.source.video_url == b.source.video_url
    &&& a.source.captured_on == b.source.captured_on
    &&& a.workshop.collection_id == b.workshop.collection_id
    &&& a.optional_custom_files == b.optional_custom_files
    &&& a.sync == b.sync
    &&& a.binds == b.binds
    &&& a.convars == b.convars
    &&& a.file_mappings == b.file_mappings
}

fn copy_item(it: &WorkshopItem) -> (r: WorkshopItem)
    ensures
        same_item(r, *it),
{
    let title = match &it.title {
        Some(t) => Some(t.clone()),
        None => None,
    };
    WorkshopItem {
        id: it.id.clone(),
        title,
        available: it.available,
        manually_added: it.manually_added,
    }
}

fn auto_id_list(items: &Vec<WorkshopItem>) -> (r: Vec<String>)
    ensures
        str_views(r@) == auto_ids(items@),
{
    let ghost all = items@;
    let mut r: Vec<String> = Vec::new();
    let mut i: usize = 0;
    while i < items.len()
        invariant
            i <= all.len(),
            all == items@,
            str_views(r@) == auto_ids(all.take(i as int)),
        decreases items.len() - i,
    {
        assert(all.take(i + 1).drop_last() =~= all.take(i as int));
        if !items[i].manually_added {
            let ghost before = str_views(r@);
            r.push(items[i].id.clone());
            assert(str_views(r@) =~= before.push(all[i as int].id@));
        }
        i = i + 1;
    }
    assert(all.take(i as int) =~= all);
    r
}

/// Replaces the preset's collection items with `ids`, titled and marked available from `meta`,
/// keeps its manually added items that the collection does not hold, and links the collection.
/// Returns how many distinct items the collection added and removed.
pub fn apply_collection(profile: &mut Profile, ids: &Vec<String>, meta: &IdMap<ItemMeta>) -> (r: (
    usize,
    usize,
))
    requires
        meta.wf(),
    ensures
        merged(final(profile).workshop.items@, str_views(ids@), old(profile).workshop.items@, meta@),
        final(profile).source.collection_url@ == item_page_url(old(profile).workshop.collection_id@),
        same_apart_from_items(*final(profile), *old(profile)),
        r.0 == str_views(ids@).to_set().difference(auto_ids(old(profile).workshop.items@).to_set()).len(),
        r.1 == auto_ids(old(profile).workshop.items@).to_set().difference(str_views(ids@).to_set()).len(),
{
    let auto = auto_id_list(&profile.workshop.items);
    let added = count_new(ids, &auto);
    let removed = count_new(&auto, ids);
    let ghost idv = str_views(ids@);
    let mut items: Vec<WorkshopItem> = Vec::new();
    let mut i: usize = 0;
    while i < ids.len()
        invariant
            i <= ids@.len(),
            idv == str_views(ids@),
            meta.wf(),
            items@.len() == i,
            forall|k: int| 0 <= k < i ==> collection_item(#[trigger] items@[k], idv[k], meta@),
        decreases ids.len() - i,
    {
        let (title, available) = match meta.get(ids[i].as_str()) {
            Some(m) => (
                if m.title.as_str().is_empty() {
                    None
                } else {
                    Some(m.title.clone())
                },
                m.available,
            ),
            None => (None, false),
        };
        items.push(WorkshopItem { id: ids[i].clone(), title, available, manually_added: false });
        i = i + 1;
    }
    let old_items = &profile.workshop.items;
    let ghost before = old_items@;
    let mut j: usize = 0;
    while j < old_items.len()
        invariant
            j <= before.len(),
            before == old_items@,
            idv == str_views(ids@),
            items@.len() == idv.len() + kept_manual(before.take(j as int), idv).len(),
            forall|k: int| 0 <= k < idv.len() ==> collection_item(#[trigger] items@[k], idv[k], meta@),
            forall|k: int|
                0 <= k < kept_manual(before.take(j as int), idv).len() ==> same_item(
                    #[trigger] items@[idv.len() + k],
                    kept_manual(before.take(j as int), idv)[k],
                ),
        decreases old_items.len() - j,
    {
        assert(before.take(j + 1).drop_last() =~= before.take(j as int));
        let it = &old_items[j];
        if it.manually_added && !crate::library::contains_str(ids, it.id.as_str()) {
            let ghost prior = items@;
            items.push(copy_item(it));
            assert(forall|k: int| 0 <= k < prior.len() ==> items@[k] == prior[k]);
        }
        j = j + 1;
    }
    assert(before.take(j as int) =~= before);
    let mut url: Vec<char> = Vec::new();
    crate::text::push_str(&mut url, "https://steamcommunity.com/sharedfiles/filedetails/?id=");
    crate::text::push_str(&mut url, profile.workshop.collection_id.as_str());
    profile.workshop.items = items;
    profile.source.collection_url = string_of(&url);
    (added, removed)
}

/// The preset after a refresh to the collection items `ids`, with their details `meta`: its
/// collection link set, its items merged, and the counts of items added and removed.
pub open spec fn refreshed(
    after: Profile,
    before: Profile,
    ids: Seq<Seq<char>>,
    meta: Map<Seq<char>, ItemMeta>,
    added: usize,
    removed: usize,
) -> bool {
    &&& after.source.collection_url@ == item_page_url(before.workshop.collection_id@)
    &&& same_apart_from_items(after, before)
    &&& merged(after.workshop.items@, ids, before.workshop.items@, meta)
    &&& added == ids.to_set().difference(auto_ids(before.workshop.items@).to_set()).len()
    &&& removed == auto_ids(before.workshop.items@).to_set().difference(ids.to_set()).len()
}

/// Refreshes a preset from its Steam collection: `fetch_collection` gives the text of the
/// collection's details response for its ID, read as JSON, `fetch_details` the details of a list of items, asked for as
/// `fetch_meta` asks. On any failure the preset is left as it was. Returns how many items were
/// added and removed, and the items' details.
pub fn refresh_collection<
    C: FnOnce(&str) -> Result<String, String>,
    D: FnMut(&Vec<String>) -> Result<String, String>,
>(profile: &mut Profile, fetch_collection: C, fetch_details: D) -> (r: Result<
    (usize, usize, IdMap<ItemMeta>),
    String,
>)
    requires
        forall|s: &str| call_requires(fetch_collection, (s,)),
        forall|c: &Vec<String>| call_requires(fetch_details, (c,)),
    ensures
        !is_numeric(old(profile).workshop.collection_id@) ==> (r matches Err(e) && e@
            == "Enter a numeric Steam collection ID first."@),
        r is Err ==> *final(profile) == *old(profile),
        is_numeric(old(profile).workshop.collection_id@) ==> exists|
            s: &str,
            answer: Result<String, String>,
        |
            s@ == old(profile).workshop.collection_id@ && #[trigger] call_ensures(
                fetch_collection,
                (s,),
                answer,
            ) && match answer_json(answer) {
                Err(e) => r matches Err(m) && m@ == e,
                Ok(value) => match spec_collection_children(value) {
                    Err(e) => r matches Err(m) && m@ == e,
                    Ok(ids) => match r {
                        Err(e) => meta_fetched(fetch_details, ids, Err(e)),
                        Ok((added, removed, m)) => meta_fetched(fetch_details, ids, Ok(m)) && refreshed(
                            *final(profile),
                            *old(profile),
                            ids,
                            m@,
                            added,
                            removed,
                        ),
                    },
                },
            },
{
    if !numeric(profile.workshop.collection_id.as_str()) {
        return Err("Enter a numeric Steam collection ID first.".to_string());
    }
    let cid = profile.workshop.collection_id.as_str();
    let raw = fetch_collection(cid);
    proof {
        assert(call_ensures(fetch_collection, (cid,), raw));
    }
    let answer = read_answer(raw);
    let value = match answer {
        Err(e) => {
            return Err(e);
        },
        Ok(v) => v,
    };
    let ids = match collection_children(&value) {
        Err(e) => {
            return Err(e);
        },
        Ok(ids) => ids,
    };
    let meta = match fetch_meta(&ids, fetch_details) {
        Err(e) => {
            return Err(e);
        },
        Ok(m) => m,
    };
    let (added, removed) = apply_collection(profile, &ids, &meta);
    Ok((added, removed, meta))
}

/// A refresh never loses a manually added item: each one is still in the preset afterwards,
/// either as a collection item or kept as it was.
pub proof fn lemma_refresh_keeps_manual_items(
    after: Seq<WorkshopItem>,
    ids: Seq<Seq<char>>,
    before: Seq<WorkshopItem>,
    meta: Map<Seq<char>, ItemMeta>,
    k: int,
)
    requires
        merged(after, ids, before, meta),
        0 <= k < before.len(),
        before[k].manually_added,
    ensures
        exists|i: int| 0 <= i < after.len() && (#[trigger] after[i]).id@ == before[k].id@,
{
    if ids.contains(before[k].id@) {
        let i = choose|i: int| 0 <= i < ids.len() && ids[i] == before[k].id@;
        assert(collection_item(after[i], ids[i], meta));
    } else {
        let j = lemma_kept_index(before, ids, k);
        assert(same_item(after[ids.len() + j], kept_manual(before, ids)[j]));
    }
}

proof fn lemma_kept_index(items: Seq<WorkshopItem>, ids: Seq<Seq<char>>, k: int) -> (j: int)
    requires
        0 <= k < items.len(),
        items[k].manually_added,
        !ids.contains(items[k].id@),
    ensures
        0 <= j < kept_manual(items, ids).len(),
        kept_manual(items, ids)[j] == items[k],
    decreases items.len(),
{
    if k == items.len() - 1 {
        kept_manual(items.drop_last(), ids).len() as int
    } else {
        let j = lemma_kept_index(items.drop_last(), ids, k);
        j
    }
}

} // verus!
