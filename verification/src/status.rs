//! How a preset's mods are described to the user: where each one is installed from, the title it
//! is listed under, and how much the preset downloads.

use crate::details::{copy_meta, same_meta};
use crate::idmap::IdMap;
use crate::library::{contains_str, lists_sorted, sorted_keys, LibraryEntry, SteamCopy};
use crate::order::{sorted_strings, str_views};
use crate::model::{Profile, WorkshopItem};
use crate::preview::{item_ids, lemma_total_prefix, shown_items, total_size};
use crate::text::{chars_of, decimal, find, find_chars_from, push_decimal, push_str, string_of, trim, trim_chars};
use crate::workshop::{format_size, size_label, ItemMeta};
use vstd::prelude::*;

verus! {

/// Where a preset's mod comes from when the game starts.
#[derive(Clone, Copy, Debug, PartialEq, Eq, Structural)]
pub enum ModState {
    /// Steam no longer has the item.
    Unavailable,
    /// Steam has downloaded it.
    Steam,
    /// It is unpacked from the library into `garrysmod/addons`.
    Unpacked,
    /// The library holds it, not yet unpacked.
    Library,
    /// Nowhere yet: Steam downloads it when the game starts.
    Missing,
}

pub open spec fn spec_mod_state(
    item: WorkshopItem,
    steam: Set<Seq<char>>,
    unpacked: Set<Seq<char>>,
    library: Set<Seq<char>>,
) -> ModState {
    if !item.available {
        ModState::Unavailable
    } else if steam.contains(item.id@) {
        ModState::Steam
    } else if unpacked.contains(item.id@) {
        ModState::Unpacked
    } else if library.contains(item.id@) {
        ModState::Library
    } else {
        ModState::Missing
    }
}

/// The state of a mod, given the Steam copies, the unpacked library copies and the library.
pub fn mod_state(
    item: &WorkshopItem,
    steam: &IdMap<SteamCopy>,
    unpacked: &IdMap<u64>,
    library: &IdMap<LibraryEntry>,
) -> (r: ModState)
    requires
        steam.wf(),
        unpacked.wf(),
        library.wf(),
    ensures
        r == spec_mod_state(*item, steam@.dom(), unpacked@.dom(), library@.dom()),
{
    let id = item.id.as_str();
    if !item.available {
        ModState::Unavailable
    } else if steam.contains_key(id) {
        ModState::Steam
    } else if unpacked.contains_key(id) {
        ModState::Unpacked
    } else if library.contains_key(id) {
        ModState::Library
    } else {
        ModState::Missing
    }
}

pub open spec fn state_label(s: ModState) -> Seq<char> {
    match s {
        ModState::Unavailable => "Removed from Workshop"@,
        ModState::Steam => "Installed"@,
        ModState::Unpacked => "Installed from library"@,
        ModState::Library => "In library"@,
        ModState::Missing => "Downloads on launch"@,
    }
}

impl ModState {
    /// What the mod list says of a mod in this state.
    pub fn describe(self) -> (r: &'static str)
        ensures
            r@ == state_label(self),
    {
        match self {
            ModState::Unavailable => "Removed from Workshop",
            ModState::Steam => "Installed",
            ModState::Unpacked => "Installed from library",
            ModState::Library => "In library",
            ModState::Missing => "Downloads on launch",
        }
    }
}

/// The title a mod is listed under: its own, else Steam's, else `Unknown item`.
pub open spec fn listed_title(item: WorkshopItem, meta: Map<Seq<char>, ItemMeta>) -> Seq<char> {
    if item.title matches Some(t) && t@.len() > 0 {
        item.title.unwrap()@
    } else if meta.contains_key(item.id@) && meta[item.id@].title@.len() > 0 {
        meta[item.id@].title@
    } else {
        "Unknown item"@
    }
}

pub fn title_of(item: &WorkshopItem, meta: &IdMap<ItemMeta>) -> (r: String)
    requires
        meta.wf(),
    ensures
        r@ == listed_title(*item, meta@),
{
    if let Some(t) = &item.title {
        if !t.as_str().is_empty() {
            let own = t.clone();
            assert(own@ == t@);
            return own;
        }
    }
    match meta.get(item.id.as_str()) {
        Some(m) if !m.title.as_str().is_empty() => {
            let steam = m.title.clone();
            assert(steam@ == m.title@);
            steam
        },
        _ => "Unknown item".to_string(),
    }
}

/// Steam reports a size for the mod.
pub open spec fn size_known(item: WorkshopItem, meta: Map<Seq<char>, ItemMeta>) -> bool {
    meta.contains_key(item.id@) && meta[item.id@].size > 0
}

/// Every available mod among `items` has a known size.
pub open spec fn sizes_known(items: Seq<WorkshopItem>, meta: Map<Seq<char>, ItemMeta>) -> bool {
    forall|i: int| 0 <= i < items.len() && #[trigger] items[i].available ==> size_known(items[i], meta)
}

/// The Workshop size of a preset's available mods, and whether every one of their sizes is
/// known. The total must fit in a `u64`.
pub fn preset_size(profile: &Profile, meta: &IdMap<ItemMeta>) -> (r: (u64, bool))
    requires
        meta.wf(),
        total_size(shown_items(profile.workshop.items@), meta@) <= u64::MAX,
    ensures
        r.0 == total_size(shown_items(profile.workshop.items@), meta@),
        r.1 == sizes_known(profile.workshop.items@, meta@),
{
    let items = &profile.workshop.items;
    let ghost all = items@;
    let mut total: u64 = 0;
    let mut complete = true;
    let mut i: usize = 0;
    while i < items.len()
        invariant
            i <= all.len(),
            all == items@,
            all == profile.workshop.items@,
            meta.wf(),
            total_size(shown_items(all), meta@) <= u64::MAX,
            total == total_size(shown_items(all.take(i as int)), meta@),
            complete == sizes_known(all.take(i as int), meta@),
        decreases items.len() - i,
    {
        let ghost prev = shown_items(all.take(i as int));
        let ghost before = all.take(i as int);
        let ghost after = all.take(i + 1);
        assert(after.drop_last() =~= before);
        assert(after.last() == all[i as int]);
        proof {
            lemma_total_prefix(all, i + 1, meta@);
        }
        let info = meta.get(items[i].id.as_str());
        let size: u64 = match info {
            Some(m) => m.size,
            None => 0,
        };
        if items[i].available {
            assert(prev.push(all[i as int]).drop_last() =~= prev);
            assert(total_size(prev.push(all[i as int]), meta@) == total + size);
            total = total + size;
            if size == 0 {
                complete = false;
            }
        }
        proof {
            assert forall|j: int| 0 <= j < i ==> after[j] == before[j] by {}
            if complete {
                assert forall|j: int| 0 <= j < after.len() && #[trigger] after[j].available implies size_known(after[j], meta@) by {
                    if j < i {
                        assert(before[j].available);
                    }
                }
            } else if sizes_known(after, meta@) {
                if all[i as int].available {
                    assert(after[i as int].available);
                } else {
                    assert forall|j: int| 0 <= j < before.len() && #[trigger] before[j].available implies size_known(before[j], meta@) by {
                        assert(after[j].available);
                    }
                }
            }
        }
        i = i + 1;
    }
    assert(all.take(i as int) =~= all);
    (total, complete)
}

/// How the app shows a preset's size: a dash when nothing is known, and a `+` when some
/// sizes are missing from the total.
pub open spec fn preset_size_label(total: nat, complete: bool) -> Seq<char> {
    if total == 0 {
        "—"@
    } else if complete {
        size_label(total)
    } else {
        size_label(total) + "+"@
    }
}

pub fn size_text(profile: &Profile, meta: &IdMap<ItemMeta>) -> (r: String)
    requires
        meta.wf(),
        total_size(shown_items(profile.workshop.items@), meta@) <= u64::MAX,
    ensures
        r@ == preset_size_label(
            total_size(shown_items(profile.workshop.items@), meta@),
            sizes_known(profile.workshop.items@, meta@),
        ),
{
    let (bytes, complete) = preset_size(profile, meta);
    if bytes == 0 {
        "—".to_string()
    } else if complete {
        format_size(bytes)
    } else {
        let label = format_size(bytes);
        let mut v = chars_of(label.as_str());
        push_str(&mut v, "+");
        string_of(&v)
    }
}

proof fn lemma_push_contains(s: Seq<Seq<char>>, v: Seq<char>, x: Seq<char>)
    ensures
        s.push(v).contains(x) <==> (s.contains(x) || x == v),
{
    if x == v {
        assert(s.push(v)[s.len() as int] == x);
    }
    if s.contains(x) {
        let j = choose|j: int| 0 <= j < s.len() && s[j] == x;
        assert(s.push(v)[j] == x);
    }
    if s.push(v).contains(x) && x != v {
        let j = choose|j: int| 0 <= j < s.push(v).len() && s.push(v)[j] == x;
        assert(s[j] == x);
    }
}

/// The cached details of a preset's mods.
pub fn preset_meta(profile: &Profile, meta: &IdMap<ItemMeta>) -> (r: IdMap<ItemMeta>)
    requires
        meta.wf(),
    ensures
        r.wf(),
        forall|k: Seq<char>|
            #[trigger] r@.contains_key(k) <==> (meta@.contains_key(k) && item_ids(
                profile.workshop.items@,
            ).contains(k)),
        forall|k: Seq<char>| #[trigger] r@.contains_key(k) ==> same_meta(r@[k], meta@[k]),
{
    let items = &profile.workshop.items;
    let ghost all = items@;
    let mut out: IdMap<ItemMeta> = IdMap::new();
    let mut i: usize = 0;
    while i < items.len()
        invariant
            i <= all.len(),
            all == items@,
            all == profile.workshop.items@,
            meta.wf(),
            out.wf(),
            forall|k: Seq<char>|
                #[trigger] out@.contains_key(k) <==> (meta@.contains_key(k) && item_ids(
                    all.take(i as int),
                ).contains(k)),
            forall|k: Seq<char>| #[trigger] out@.contains_key(k) ==> same_meta(out@[k], meta@[k]),
        decreases items.len() - i,
    {
        let ghost prev = item_ids(all.take(i as int));
        assert(item_ids(all.take(i + 1)) =~= prev.push(all[i as int].id@));
        proof {
            assert forall|k: Seq<char>| item_ids(all.take(i + 1)).contains(k) <==> (prev.contains(k)
                || k == all[i as int].id@) by {
                lemma_push_contains(prev, all[i as int].id@, k);
            }
        }
        match meta.get(items[i].id.as_str()) {
            Some(m) => {
                out.insert(items[i].id.clone(), copy_meta(m));
            },
            None => {},
        }
        i = i + 1;
    }
    assert(all.take(i as int) =~= all);
    out
}

/// The details of a mod are worth fetching: none are cached, or the cached ones lack the
/// uploader of an item Steam still has.
pub open spec fn needs_meta(id: Seq<char>, meta: Map<Seq<char>, ItemMeta>) -> bool {
    !(meta.contains_key(id) && (!meta[id].available || meta[id].creator@.len() > 0))
}

/// The IDs of all the presets' mods, preset by preset.
pub open spec fn all_item_ids(ps: Seq<Profile>) -> Seq<Seq<char>>
    decreases ps.len(),
{
    if ps.len() == 0 {
        seq![]
    } else {
        all_item_ids(ps.drop_last()) + item_ids(ps.last().workshop.items@)
    }
}

pub open spec fn meta_wanted_set(
    ps: Seq<Profile>,
    meta: Map<Seq<char>, ItemMeta>,
    requested: Seq<Seq<char>>,
) -> Set<Seq<char>> {
    Set::new(
        |id: Seq<char>| all_item_ids(ps).contains(id) && needs_meta(id, meta) && !requested.contains(id),
    )
}

/// The mods of all presets whose details are worth fetching and have not been asked for yet,
/// in ascending order.
pub fn meta_wanted(profiles: &Vec<Profile>, meta: &IdMap<ItemMeta>, requested: &Vec<String>) -> (r:
    Vec<String>)
    requires
        meta.wf(),
    ensures
        lists_sorted(str_views(r@), meta_wanted_set(profiles@, meta@, str_views(requested@))),
{
    let ghost req = str_views(requested@);
    let mut found: Vec<String> = Vec::new();
    let mut j: usize = 0;
    while j < profiles.len()
        invariant
            j <= profiles@.len(),
            meta.wf(),
            req == str_views(requested@),
            str_views(found@).no_duplicates(),
            forall|x: Seq<char>|
                #[trigger] str_views(found@).contains(x) <==> (all_item_ids(
                    profiles@.take(j as int),
                ).contains(x) && needs_meta(x, meta@) && !req.contains(x)),
        decreases profiles.len() - j,
    {
        let items = &profiles[j].workshop.items;
        let ghost base = all_item_ids(profiles@.take(j as int));
        let ghost all = items@;
        let mut k: usize = 0;
        assert(base + item_ids(all.take(0)) =~= base);
        while k < items.len()
            invariant
                k <= all.len(),
                all == items@,
                meta.wf(),
                req == str_views(requested@),
                str_views(found@).no_duplicates(),
                forall|x: Seq<char>|
                    #[trigger] str_views(found@).contains(x) <==> ((base + item_ids(
                        all.take(k as int),
                    )).contains(x) && needs_meta(x, meta@) && !req.contains(x)),
            decreases items.len() - k,
        {
            let ghost id = all[k as int].id@;
            let ghost seen = base + item_ids(all.take(k as int));
            assert(base + item_ids(all.take(k + 1)) =~= seen.push(id));
            let wanted = match meta.get(items[k].id.as_str()) {
                Some(m) => m.available && m.creator.as_str().is_empty(),
                None => true,
            };
            assert(wanted == needs_meta(id, meta@));
            let ghost before = str_views(found@);
            if wanted && !contains_str(requested, items[k].id.as_str()) && !contains_str(
                &found,
                items[k].id.as_str(),
            ) {
                found.push(items[k].id.clone());
                assert(str_views(found@) =~= before.push(id));
                proof {
                    assert forall|a: int, b: int|
                        0 <= a < b < str_views(found@).len() implies str_views(found@)[a]
                        != str_views(found@)[b] by {
                        if b == before.len() {
                            assert(before[a] == str_views(found@)[a]);
                        }
                    }
                }
            }
            proof {
                assert forall|x: Seq<char>| #[trigger] str_views(found@).contains(x) <==> ((base
                    + item_ids(all.take(k + 1))).contains(x) && needs_meta(x, meta@)
                    && !req.contains(x)) by {
                    lemma_push_contains(seen, id, x);
                    lemma_push_contains(before, id, x);
                }
            }
            k = k + 1;
        }
        assert(all.take(all.len() as int) =~= all);
        assert(profiles@.take(j + 1).drop_last() =~= profiles@.take(j as int));
        assert(profiles@.take(j + 1).last() == profiles@[j as int]);
        j = j + 1;
    }
    assert(profiles@.take(profiles@.len() as int) =~= profiles@);
    let ghost fs = str_views(found@);
    let r = sorted_strings(found);
    assert(fs.to_set() =~= meta_wanted_set(profiles@, meta@, req));
    r
}

/// Every item of every preset, preset by preset.
pub open spec fn all_items(ps: Seq<Profile>) -> Seq<WorkshopItem>
    decreases ps.len(),
{
    if ps.len() == 0 {
        seq![]
    } else {
        all_items(ps.drop_last()) + ps.last().workshop.items@
    }
}

/// An available mod that Steam has and the library lacks, or holds in an older copy.
pub open spec fn worth_storing(
    item: WorkshopItem,
    steam: Map<Seq<char>, SteamCopy>,
    library: Map<Seq<char>, LibraryEntry>,
) -> bool {
    &&& item.available
    &&& steam.contains_key(item.id@)
    &&& !(library.contains_key(item.id@) && library[item.id@].time_updated
        >= steam[item.id@].time_updated)
}

/// Each mod worth storing, to the title of the last item that names it.
pub open spec fn store_titles(
    items: Seq<WorkshopItem>,
    steam: Map<Seq<char>, SteamCopy>,
    library: Map<Seq<char>, LibraryEntry>,
    meta: Map<Seq<char>, ItemMeta>,
) -> Map<Seq<char>, Seq<char>>
    decreases items.len(),
{
    if items.len() == 0 {
        Map::empty()
    } else {
        let m = store_titles(items.drop_last(), steam, library, meta);
        let it = items.last();
        if worth_storing(it, steam, library) {
            m.insert(it.id@, listed_title(it, meta))
        } else {
            m
        }
    }
}

/// The mods of all presets that "store all" compresses into the library, in ascending ID
/// order, each with the title it is shown under.
pub fn store_candidates(
    profiles: &Vec<Profile>,
    steam: &IdMap<SteamCopy>,
    library: &IdMap<LibraryEntry>,
    meta: &IdMap<ItemMeta>,
) -> (r: Vec<(String, String)>)
    requires
        steam.wf(),
        library.wf(),
        meta.wf(),
    ensures
        lists_sorted(
            r@.map_values(|p: (String, String)| p.0@),
            store_titles(all_items(profiles@), steam@, library@, meta@).dom(),
        ),
        forall|i: int|
            0 <= i < r@.len() ==> #[trigger] r@[i].1@ == store_titles(
                all_items(profiles@),
                steam@,
                library@,
                meta@,
            )[r@[i].0@],
{
    let mut titles: IdMap<String> = IdMap::new();
    let mut j: usize = 0;
    while j < profiles.len()
        invariant
            j <= profiles@.len(),
            steam.wf(),
            library.wf(),
            meta.wf(),
            titles.wf(),
            forall|k: Seq<char>|
                #[trigger] titles@.contains_key(k) <==> store_titles(
                    all_items(profiles@.take(j as int)),
                    steam@,
                    library@,
                    meta@,
                ).contains_key(k),
            forall|k: Seq<char>|
                #[trigger] titles@.contains_key(k) ==> titles@[k]@ == store_titles(
                    all_items(profiles@.take(j as int)),
                    steam@,
                    library@,
                    meta@,
                )[k],
        decreases profiles.len() - j,
    {
        let items = &profiles[j].workshop.items;
        let ghost base = all_items(profiles@.take(j as int));
        let ghost all = items@;
        let mut k: usize = 0;
        assert(base + all.take(0) =~= base);
        while k < items.len()
            invariant
                k <= all.len(),
                all == items@,
                steam.wf(),
                library.wf(),
                meta.wf(),
                titles.wf(),
                forall|x: Seq<char>|
                    #[trigger] titles@.contains_key(x) <==> store_titles(
                        base + all.take(k as int),
                        steam@,
                        library@,
                        meta@,
                    ).contains_key(x),
                forall|x: Seq<char>|
                    #[trigger] titles@.contains_key(x) ==> titles@[x]@ == store_titles(
                        base + all.take(k as int),
                        steam@,
                        library@,
                        meta@,
                    )[x],
            decreases items.len() - k,
        {
            let item = &items[k];
            assert((base + all.take(k + 1)).drop_last() =~= base + all.take(k as int));
            assert((base + all.take(k + 1)).last() == all[k as int]);
            let id = item.id.as_str();
            let worth = item.available && match steam.get(id) {
                Some(copy) => match library.get(id) {
                    Some(e) => e.time_updated < copy.time_updated,
                    None => true,
                },
                None => false,
            };
            if worth {
                let title = title_of(item, meta);
                titles.insert(item.id.clone(), title);
            }
            k = k + 1;
        }
        assert(all.take(all.len() as int) =~= all);
        assert(profiles@.take(j + 1).drop_last() =~= profiles@.take(j as int));
        assert(profiles@.take(j + 1).last() == profiles@[j as int]);
        j = j + 1;
    }
    assert(profiles@.take(profiles@.len() as int) =~= profiles@);
    let ghost st = store_titles(all_items(profiles@), steam@, library@, meta@);
    assert(titles@.dom() =~= st.dom());
    let keys = sorted_keys(&titles);
    let mut out: Vec<(String, String)> = Vec::new();
    let mut i: usize = 0;
    while i < keys.len()
        invariant
            i <= keys@.len(),
            titles.wf(),
            titles@.dom() == st.dom(),
            lists_sorted(str_views(keys@), titles@.dom()),
            forall|x: Seq<char>| #[trigger] titles@.contains_key(x) ==> titles@[x]@ == st[x],
            out@.len() == i,
            forall|a: int| 0 <= a < i ==> #[trigger] out@[a].0@ == keys@[a]@ && out@[a].1@ == st[keys@[a]@],
        decreases keys.len() - i,
    {
        assert(str_views(keys@).to_set().contains(keys@[i as int]@)) by {
            assert(str_views(keys@)[i as int] == keys@[i as int]@);
        }
        let title = match titles.get(keys[i].as_str()) {
            Some(t) => t.clone(),
            None => String::new(),
        };
        out.push((keys[i].clone(), title));
        i = i + 1;
    }
    assert(out@.map_values(|p: (String, String)| p.0@) =~= str_views(keys@));
    out
}

/// How the library list describes a stored mod: unpacked from the library, also downloaded by
/// Steam, or only compressed.
pub open spec fn spec_entry_status(unpacked: bool, steam: bool) -> Seq<char> {
    if unpacked {
        "Installed from library"@
    } else if steam {
        "Also installed by Steam"@
    } else {
        "Compressed"@
    }
}

pub fn entry_status(id: &str, unpacked: &IdMap<u64>, steam: &IdMap<SteamCopy>) -> (r: &'static str)
    requires
        unpacked.wf(),
        steam.wf(),
    ensures
        r@ == spec_entry_status(unpacked@.contains_key(id@), steam@.contains_key(id@)),
{
    if unpacked.contains_key(id) {
        "Installed from library"
    } else if steam.contains_key(id) {
        "Also installed by Steam"
    } else {
        "Compressed"
    }
}

/// How many items of the presets name `id`.
pub open spec fn uses(items: Seq<WorkshopItem>, id: Seq<char>) -> nat
    decreases items.len(),
{
    if items.len() == 0 {
        0
    } else {
        uses(items.drop_last(), id) + if items.last().id@ == id {
            1nat
        } else {
            0nat
        }
    }
}

proof fn lemma_uses_bound(items: Seq<WorkshopItem>, id: Seq<char>)
    ensures
        uses(items, id) <= items.len(),
    decreases items.len(),
{
    if items.len() > 0 {
        lemma_uses_bound(items.drop_last(), id);
    }
}

/// In how many presets' item lists a stored mod appears, counting each item.
pub fn preset_uses(profiles: &Vec<Profile>, id: &str) -> (r: u64)
    requires
        all_items(profiles@).len() <= u64::MAX,
    ensures
        r == uses(all_items(profiles@), id@),
{
    let mut count: u64 = 0;
    let mut j: usize = 0;
    while j < profiles.len()
        invariant
            j <= profiles@.len(),
            all_items(profiles@).len() <= u64::MAX,
            count == uses(all_items(profiles@.take(j as int)), id@),
        decreases profiles.len() - j,
    {
        let items = &profiles[j].workshop.items;
        let ghost base = all_items(profiles@.take(j as int));
        let ghost all = items@;
        assert(profiles@.take(j + 1).drop_last() =~= profiles@.take(j as int));
        assert(profiles@.take(j + 1).last() == profiles@[j as int]);
        assert(all_items(profiles@.take(j + 1)) == base + all);
        proof {
            lemma_all_items_prefix(profiles@, j + 1);
        }
        let mut k: usize = 0;
        assert(base + all.take(0) =~= base);
        while k < items.len()
            invariant
                k <= all.len(),
                all == items@,
                (base + all).len() <= u64::MAX,
                count == uses(base + all.take(k as int), id@),
            decreases items.len() - k,
        {
            assert((base + all.take(k + 1)).drop_last() =~= base + all.take(k as int));
            assert((base + all.take(k + 1)).last() == all[k as int]);
            proof {
                lemma_uses_bound(base + all.take(k as int), id@);
            }
            if crate::text::str_eq(items[k].id.as_str(), id) {
                count = count + 1;
            }
            k = k + 1;
        }
        assert(all.take(all.len() as int) =~= all);
        j = j + 1;
    }
    assert(profiles@.take(profiles@.len() as int) =~= profiles@);
    count
}

proof fn lemma_all_items_prefix(ps: Seq<Profile>, j: int)
    requires
        0 <= j <= ps.len(),
    ensures
        all_items(ps.take(j)).len() <= all_items(ps).len(),
    decreases ps.len() - j,
{
    if j < ps.len() {
        lemma_all_items_prefix(ps, j + 1);
        assert(ps.take(j + 1).drop_last() =~= ps.take(j));
    } else {
        assert(ps.take(j) =~= ps);
    }
}

/// How the library list says in how many presets a stored mod is used.
pub open spec fn uses_text(n: nat) -> Seq<char> {
    if n == 0 {
        "not in any preset"@
    } else if n == 1 {
        "1 preset"@
    } else {
        decimal(n) + " presets"@
    }
}

pub fn uses_label(n: u64) -> (r: String)
    ensures
        r@ == uses_text(n as nat),
{
    if n == 0 {
        "not in any preset".to_string()
    } else if n == 1 {
        "1 preset".to_string()
    } else {
        let mut v: Vec<char> = Vec::new();
        push_decimal(&mut v, n);
        push_str(&mut v, " presets");
        string_of(&v)
    }
}

/// The stored and the unpacked sizes of the library's mods, in key order.
pub open spec fn sizes_total(keys: Seq<Seq<char>>, m: Map<Seq<char>, LibraryEntry>, raw: bool) -> nat
    decreases keys.len(),
{
    if keys.len() == 0 {
        0
    } else {
        sizes_total(keys.drop_last(), m, raw) + if raw {
            m[keys.last()].raw_size as nat
        } else {
            m[keys.last()].stored_size as nat
        }
    }
}

/// What the library holds on disk and how big its mods are unpacked; `None` when either total
/// does not fit in a `u64`.
pub fn library_totals(entries: &IdMap<LibraryEntry>) -> (r: Option<(u64, u64)>)
    requires
        entries.wf(),
    ensures
        match r {
            Some((stored, raw)) => stored == sizes_total(entries.key_seq(), entries@, false) && raw
                == sizes_total(entries.key_seq(), entries@, true),
            None => sizes_total(entries.key_seq(), entries@, false) > u64::MAX || sizes_total(
                entries.key_seq(),
                entries@,
                true,
            ) > u64::MAX,
        },
{
    let ghost ks = entries.key_seq();
    let n = entries.len();
    let mut stored: u64 = 0;
    let mut raw: u64 = 0;
    let mut i: usize = 0;
    while i < n
        invariant
            n == ks.len(),
            ks == entries.key_seq(),
            entries.wf(),
            i <= n,
            stored == sizes_total(ks.take(i as int), entries@, false),
            raw == sizes_total(ks.take(i as int), entries@, true),
        decreases n - i,
    {
        let (_, e) = entries.entry(i);
        assert(ks.take(i + 1).drop_last() =~= ks.take(i as int));
        assert(ks.take(i + 1).last() == ks[i as int]);
        let s = stored.checked_add(e.stored_size);
        let w = raw.checked_add(e.raw_size);
        match (s, w) {
            (Some(a), Some(b)) => {
                stored = a;
                raw = b;
            },
            _ => {
                proof {
                    lemma_totals_grow(ks, entries@, i as int + 1);
                }
                return None;
            },
        }
        i = i + 1;
    }
    assert(ks.take(n as int) =~= ks);
    Some((stored, raw))
}

proof fn lemma_totals_grow(ks: Seq<Seq<char>>, m: Map<Seq<char>, LibraryEntry>, j: int)
    requires
        0 <= j <= ks.len(),
    ensures
        sizes_total(ks.take(j), m, false) <= sizes_total(ks, m, false),
        sizes_total(ks.take(j), m, true) <= sizes_total(ks, m, true),
    decreases ks.len() - j,
{
    if j < ks.len() {
        lemma_totals_grow(ks, m, j + 1);
        assert(ks.take(j + 1).drop_last() =~= ks.take(j));
    } else {
        assert(ks.take(j) =~= ks);
    }
}

/// The text as `str::to_lowercase` gives it.
pub uninterp spec fn unicode_lower(s: Seq<char>) -> Seq<char>;

/// `str::to_lowercase`. Its result follows Unicode's lowercase mappings, which take pages to
/// state; it is named by `unicode_lower`.
#[verifier::external_body]
fn lowercase(s: &str) -> (r: String)
    ensures
        r@ == unicode_lower(s@),
{
    s.to_lowercase()
}

/// The search text of the mods list: what was typed, trimmed, then lowercased.
pub fn mod_filter(query: &str) -> (r: String)
    ensures
        r@ == unicode_lower(trim(query@)),
{
    let t = string_of(&trim_chars(&chars_of(query)));
    lowercase(t.as_str())
}

/// A mod is listed under a search text when the text is empty, or when the mod's ID, its
/// lowercased title or its lowercased author holds it.
pub open spec fn spec_listed_with(
    filter: Seq<char>,
    id: Seq<char>,
    lower_title: Seq<char>,
    lower_author: Seq<char>,
) -> bool {
    filter.len() == 0 || find(id, filter) >= 0 || find(lower_title, filter) >= 0 || find(
        lower_author,
        filter,
    ) >= 0
}

fn holds(s: &str, p: &str) -> (r: bool)
    ensures
        r == (find(s@, p@) >= 0),
{
    let sc = chars_of(s);
    let pc = chars_of(p);
    find_chars_from(&sc, &pc, 0).is_some()
}

/// Whether a mod is listed, given its title and author already lowercased.
pub fn listed_with(filter: &str, id: &str, lower_title: &str, lower_author: &str) -> (r: bool)
    ensures
        r == spec_listed_with(filter@, id@, lower_title@, lower_author@),
{
    filter.unicode_len() == 0 || holds(id, filter) || holds(lower_title, filter) || holds(
        lower_author,
        filter,
    )
}

/// Whether the mods list shows a mod under a search text (as `mod_filter` makes it).
pub fn mod_listed(filter: &str, id: &str, title: &str, author: &str) -> (r: bool)
    ensures
        r == spec_listed_with(filter@, id@, unicode_lower(title@), unicode_lower(author@)),
{
    let t = lowercase(title);
    let a = lowercase(author);
    listed_with(filter, id, t.as_str(), a.as_str())
}

} // verus!
