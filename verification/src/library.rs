//! The compressed mod library: what it holds, and the plan that decides which mods Steam
//! keeps, which the library stores, and which are unpacked into `garrysmod/addons`.

use crate::idmap::IdMap;
use crate::order::{sorted_strings, str_views, strictly_sorted};
use crate::text::{chars_of, is_numeric, push_str, str_eq, string_of};
use vstd::prelude::*;

verus! {

/// Largest addon that gets the strong (slow) compression level.
pub const SMALL_GMA_MAX_BYTES: u64 = 67108864;

/// A Workshop item that Steam has downloaded.
#[derive(Clone, Debug)]
pub struct SteamCopy {
    pub id: String,
    pub path: String,
    /// `*_legacy.bin`: an LZMA-compressed GMA.
    pub legacy: bool,
    pub size: u64,
    pub time_updated: u64,
}

/// One stored mod of the library index.
#[derive(Clone, Debug, Default)]
pub struct LibraryEntry {
    pub title: String,
    pub time_updated: u64,
    pub raw_size: u64,
    pub stored_size: u64,
    /// Old index files default to false, so they can be optimized on demand.
    pub optimized: bool,
}

/// The library folder and its index.
#[derive(Clone, Debug)]
pub struct Library {
    pub root: String,
    pub entries: IdMap<LibraryEntry>,
}

pub open spec fn spec_can_optimize(e: LibraryEntry) -> bool {
    !e.optimized && e.raw_size > 0 && e.raw_size <= SMALL_GMA_MAX_BYTES
}

/// An older library copy that may still be recompressed at the strong level.
pub fn can_optimize(entry: &LibraryEntry) -> (r: bool)
    ensures
        r == spec_can_optimize(*entry),
{
    !entry.optimized && entry.raw_size > 0 && entry.raw_size <= SMALL_GMA_MAX_BYTES
}

/// The addon folder a library mod is unpacked into.
pub fn folder_name(id: &str) -> (r: String)
    ensures
        r@ == "gmm_"@ + id@,
{
    let mut v: Vec<char> = Vec::new();
    push_str(&mut v, "gmm_");
    push_str(&mut v, id);
    string_of(&v)
}

/// `root` joined with `name` by one `/`, as `Path::join` joins a relative name.
pub open spec fn join_path(root: Seq<char>, name: Seq<char>) -> Seq<char> {
    if root.len() == 0 || root.last() == '/' {
        root + name
    } else {
        root + seq!['/'] + name
    }
}

pub fn join(root: &str, name: &[char]) -> (r: String)
    ensures
        r@ == join_path(root@, name@),
{
    let mut v = chars_of(root);
    if v.len() > 0 && v[v.len() - 1] != '/' {
        v.push('/');
    }
    crate::text::push_all(&mut v, name);
    string_of(&v)
}

/// `s` ends with `suffix`.
pub open spec fn ends_with(s: Seq<char>, suffix: Seq<char>) -> bool {
    suffix.len() <= s.len() && s.subrange(s.len() - suffix.len(), s.len() as int) == suffix
}

fn ends_with_chars(s: &[char], suffix: &str) -> (r: bool)
    ensures
        r == ends_with(s@, suffix@),
{
    let p = chars_of(suffix);
    if p.len() > s.len() {
        return false;
    }
    let off = s.len() - p.len();
    let mut i: usize = 0;
    while i < p.len()
        invariant
            i <= p@.len(),
            p@ == suffix@,
            off + p@.len() == s@.len(),
            off as int + p.len() as int == s.len() as int,
            forall|k: int| 0 <= k < i ==> s@[off + k] == p@[k],
        decreases p.len() - i,
    {
        if s[off + i] != p[i] {
            assert(s@.subrange(off as int, s@.len() as int)[i as int] != p@[i as int]);
            return false;
        }
        i = i + 1;
    }
    assert(s@.subrange(off as int, s@.len() as int) =~= p@);
    true
}

/// What a file in a Workshop item's download folder is, by its name in any case: `Some(true)`
/// for an LZMA-compressed `*_legacy.bin`, `Some(false)` for a `*.gma`, `None` for anything else.
pub open spec fn spec_copy_kind(file_name: Seq<char>) -> Option<bool> {
    let l = crate::text::ascii_lower(file_name);
    if ends_with(l, "_legacy.bin"@) {
        Some(true)
    } else if ends_with(l, ".gma"@) {
        Some(false)
    } else {
        None
    }
}

pub fn copy_kind(file_name: &str) -> (r: Option<bool>)
    ensures
        r == spec_copy_kind(file_name@),
{
    let l = crate::text::lower_chars(&chars_of(file_name));
    if ends_with_chars(&l, "_legacy.bin") {
        Some(true)
    } else if ends_with_chars(&l, ".gma") {
        Some(false)
    } else {
        None
    }
}

/// Of two addon files in one download folder, a plain GMA is taken over a legacy one; else the
/// first found stays.
pub fn prefer_copy(best_legacy: Option<bool>, legacy: bool) -> (r: bool)
    ensures
        r == match best_legacy {
            None => true,
            Some(was) => was && !legacy,
        },
{
    match best_legacy {
        None => true,
        Some(was) => was && !legacy,
    }
}

/// A Steam copy that is stored at the strong (slow) level: a plain GMA no larger than
/// `SMALL_GMA_MAX_BYTES`. Its library entry counts as optimized.
pub fn strong_level(copy: &SteamCopy) -> (r: bool)
    ensures
        r == (!copy.legacy && copy.size <= SMALL_GMA_MAX_BYTES),
{
    !copy.legacy && copy.size <= SMALL_GMA_MAX_BYTES
}

/// The library entry after recompressing a stored mod to `stored` bytes, from `previous`: the
/// smaller copy is kept and the entry counts as optimized. Also whether the new copy replaces
/// the old one, and how many bytes that saves.
pub fn optimized_entry(entry: &LibraryEntry, stored: u64, previous: u64) -> (r: (LibraryEntry, bool, u64))
    ensures
        r.0.title@ == entry.title@,
        r.0.time_updated == entry.time_updated,
        r.0.raw_size == entry.raw_size,
        r.0.stored_size == if stored < previous {
            stored
        } else {
            previous
        },
        r.0.optimized,
        r.1 == (stored < previous),
        r.2 == if stored < previous {
            previous - stored
        } else {
            0
        },
{
    let title = entry.title.clone();
    let smaller = stored < previous;
    (
        LibraryEntry {
            title,
            time_updated: entry.time_updated,
            raw_size: entry.raw_size,
            stored_size: if smaller {
                stored
            } else {
                previous
            },
            optimized: true,
        },
        smaller,
        if smaller {
            previous - stored
        } else {
            0
        },
    )
}

/// The Workshop ID of an unpacked library mod's folder name: what follows `gmm_`, when that is a
/// non-empty run of ASCII digits.
pub open spec fn spec_unpacked_id(name: Seq<char>) -> Option<Seq<char>> {
    if name.len() >= 4 && name.take(4) == "gmm_"@ && is_numeric(name.skip(4)) {
        Some(name.skip(4))
    } else {
        None
    }
}

pub fn unpacked_id(name: &str) -> (r: Option<String>)
    ensures
        match r {
            Some(id) => spec_unpacked_id(name@) == Some(id@),
            None => spec_unpacked_id(name@) is None,
        },
{
    let v = chars_of(name);
    let prefix = chars_of("gmm_");
    proof {
        reveal_strlit("gmm_");
    }
    if !crate::text::starts_with_chars(&v, &prefix) {
        return None;
    }
    let mut rest: Vec<char> = Vec::new();
    let mut k: usize = 4;
    while k < v.len()
        invariant
            4 <= k <= v@.len(),
            rest@ == v@.subrange(4, k as int),
        decreases v.len() - k,
    {
        rest.push(v[k]);
        k = k + 1;
        assert(rest@ =~= v@.subrange(4, k as int));
    }
    assert(v@.skip(4) =~= rest@);
    assert(v@.take(4) =~= prefix@);
    if rest.len() > 0 && crate::text::digits_only(&rest) {
        Some(string_of(&rest))
    } else {
        None
    }
}

/// The folder a mod is unpacked into is read back as the mod's ID.
pub proof fn lemma_unpacked_id_round_trip(id: Seq<char>)
    requires
        is_numeric(id),
    ensures
        spec_unpacked_id("gmm_"@ + id) == Some(id),
{
    reveal_strlit("gmm_");
    let name = "gmm_"@ + id;
    assert(name.take(4) =~= "gmm_"@);
    assert(name.skip(4) =~= id);
}

/// What choosing another folder for the library does.
#[derive(Clone, Copy, Debug, PartialEq, Eq, Structural)]
pub enum FolderChange {
    /// Move the library's mods into the chosen folder.
    Move,
    /// Use the chosen folder from now on, as it is.
    Switch,
    /// The chosen folder holds a different library.
    Refuse,
}

pub open spec fn spec_folder_change(target_has_mods: bool, shown_has_mods: bool, current_has_mods: bool) -> FolderChange {
    if !target_has_mods && shown_has_mods {
        FolderChange::Move
    } else if !shown_has_mods || !current_has_mods {
        FolderChange::Switch
    } else {
        FolderChange::Refuse
    }
}

/// A library with mods moves into a chosen folder that has none; an empty library just
/// switches folders; two libraries with mods are never merged. `shown_has_mods` is what the app
/// last read of the current library, `current_has_mods` what its folder holds now.
pub fn folder_change(target_has_mods: bool, shown_has_mods: bool, current_has_mods: bool) -> (r: FolderChange)
    ensures
        r == spec_folder_change(target_has_mods, shown_has_mods, current_has_mods),
{
    if !target_has_mods && shown_has_mods {
        FolderChange::Move
    } else if !shown_has_mods || !current_has_mods {
        FolderChange::Switch
    } else {
        FolderChange::Refuse
    }
}

impl Library {
    pub open spec fn wf(&self) -> bool {
        self.entries.wf()
    }

    /// The compressed copy of a stored mod: `<root>/<id>.gma.zst`.
    pub fn file(&self, id: &str) -> (r: String)
        ensures
            r@ == join_path(self.root@, id@ + ".gma.zst"@),
    {
        let mut name = chars_of(id);
        push_str(&mut name, ".gma.zst");
        join(&self.root, &name)
    }
}

} // verus!

verus! {

/// The work an apply does for a preset's mods.
#[derive(Clone, Debug, Default, PartialEq, Eq)]
pub struct Plan {
    /// Steam copies to compress into the library.
    pub store: Vec<String>,
    /// Library mods to unpack into `garrysmod/addons`.
    pub install: Vec<String>,
    /// Unpacked library mods to remove.
    pub uninstall: Vec<String>,
    /// Items Steam should keep or download.
    pub subscribe: Vec<String>,
    /// Items safely stored in the library that Steam no longer needs to keep.
    pub unsubscribe: Vec<String>,
}

/// The IDs in order, each at its first occurrence.
pub open spec fn dedup(s: Seq<Seq<char>>) -> Seq<Seq<char>>
    decreases s.len(),
{
    if s.len() == 0 {
        s
    } else {
        let d = dedup(s.drop_last());
        if d.contains(s.last()) {
            d
        } else {
            d.push(s.last())
        }
    }
}

/// The library holds a copy of `id` at least as new as the newest version Steam reports.
pub open spec fn usable(library: Map<Seq<char>, LibraryEntry>, latest: Map<Seq<char>, u64>, id: Seq<char>) -> bool {
    library.contains_key(id) && (!latest.contains_key(id) || library[id].time_updated >= latest[id])
}

/// Steam keeps or downloads the mod: it has it, or the library cannot serve it.
pub open spec fn keeps_subscribed(
    steam: Map<Seq<char>, SteamCopy>,
    library: Map<Seq<char>, LibraryEntry>,
    latest: Map<Seq<char>, u64>,
) -> spec_fn(Seq<char>) -> bool {
    |id: Seq<char>| steam.contains_key(id) || !usable(library, latest, id)
}

/// Steam's copy is newer than the library's (or the library has none).
pub open spec fn needs_store(
    steam: Map<Seq<char>, SteamCopy>,
    library: Map<Seq<char>, LibraryEntry>,
) -> spec_fn(Seq<char>) -> bool {
    |id: Seq<char>|
        steam.contains_key(id) && (!library.contains_key(id) || library[id].time_updated
            < steam[id].time_updated)
}

/// The library serves the mod and the unpacked copy is missing or of another version.
pub open spec fn needs_install(
    steam: Map<Seq<char>, SteamCopy>,
    library: Map<Seq<char>, LibraryEntry>,
    installed: Map<Seq<char>, u64>,
    latest: Map<Seq<char>, u64>,
) -> spec_fn(Seq<char>) -> bool {
    |id: Seq<char>|
        !steam.contains_key(id) && usable(library, latest, id) && !(installed.contains_key(id)
            && installed[id] == library[id].time_updated)
}

/// Steam keeps the mod, so an unpacked copy of it goes.
pub open spec fn drops_unpacked(
    steam: Map<Seq<char>, SteamCopy>,
    library: Map<Seq<char>, LibraryEntry>,
    installed: Map<Seq<char>, u64>,
    latest: Map<Seq<char>, u64>,
) -> spec_fn(Seq<char>) -> bool {
    |id: Seq<char>|
        (steam.contains_key(id) || !usable(library, latest, id)) && installed.contains_key(id)
}

/// Steam copies of unwanted mods that the library holds at least as new.
pub open spec fn droppable(
    wanted: Seq<Seq<char>>,
    steam: Map<Seq<char>, SteamCopy>,
    library: Map<Seq<char>, LibraryEntry>,
) -> Set<Seq<char>> {
    steam.dom().filter(
        |id: Seq<char>|
            !wanted.contains(id) && library.contains_key(id) && library[id].time_updated
                >= steam[id].time_updated,
    )
}

/// `r` lists the set `s` in ascending order.
pub open spec fn lists_sorted(r: Seq<Seq<char>>, s: Set<Seq<char>>) -> bool {
    strictly_sorted(r) && r.to_set() == s
}

/// The plan for `wanted` (see `plan`).
pub open spec fn plan_spec(
    p: Plan,
    wanted: Seq<Seq<char>>,
    steam: Map<Seq<char>, SteamCopy>,
    library: Map<Seq<char>, LibraryEntry>,
    installed: Map<Seq<char>, u64>,
    latest: Map<Seq<char>, u64>,
    enabled: bool,
) -> bool {
    let w = dedup(wanted);
    let unwanted_installed = installed.dom().filter(|id: Seq<char>| !w.contains(id));
    if !enabled {
        &&& str_views(p.subscribe@) == w
        &&& lists_sorted(str_views(p.uninstall@), installed.dom())
        &&& p.store@.len() == 0 && p.install@.len() == 0 && p.unsubscribe@.len() == 0
    } else {
        &&& str_views(p.subscribe@) == w.filter(keeps_subscribed(steam, library, latest))
        &&& str_views(p.store@) == w.filter(needs_store(steam, library))
        &&& str_views(p.install@) == w.filter(needs_install(steam, library, installed, latest))
        &&& str_views(p.uninstall@).len() >= w.filter(
            drops_unpacked(steam, library, installed, latest),
        ).len()
        &&& str_views(p.uninstall@).take(
            w.filter(drops_unpacked(steam, library, installed, latest)).len() as int,
        ) == w.filter(drops_unpacked(steam, library, installed, latest))
        &&& lists_sorted(
            str_views(p.uninstall@).skip(
                w.filter(drops_unpacked(steam, library, installed, latest)).len() as int,
            ),
            unwanted_installed,
        )
        &&& lists_sorted(str_views(p.unsubscribe@), droppable(w, steam, library))
    }
}

} // verus!

verus! {

pub fn contains_str(v: &Vec<String>, x: &str) -> (r: bool)
    ensures
        r == str_views(v@).contains(x@),
{
    let mut i: usize = 0;
    while i < v.len()
        invariant
            i <= v@.len(),
            forall|k: int| 0 <= k < i ==> v@[k]@ != x@,
        decreases v.len() - i,
    {
        if str_eq(v[i].as_str(), x) {
            assert(str_views(v@)[i as int] == x@);
            return true;
        }
        i = i + 1;
    }
    proof {
        if str_views(v@).contains(x@) {
            let k = choose|k: int| 0 <= k < str_views(v@).len() && str_views(v@)[k] == x@;
            assert(v@[k]@ == x@);
        }
    }
    false
}

fn dedup_ids(wanted: &Vec<String>) -> (r: Vec<String>)
    ensures
        str_views(r@) == dedup(str_views(wanted@)),
{
    let mut r: Vec<String> = Vec::new();
    let mut i: usize = 0;
    let ghost src = str_views(wanted@);
    assert(str_views(r@) =~= dedup(src.take(0)));
    while i < wanted.len()
        invariant
            i <= wanted@.len(),
            src == str_views(wanted@),
            str_views(r@) == dedup(src.take(i as int)),
        decreases wanted.len() - i,
    {
        assert(src.take(i + 1).drop_last() =~= src.take(i as int));
        assert(src.take(i + 1).last() == wanted@[i as int]@);
        if !contains_str(&r, wanted[i].as_str()) {
            let ghost before = str_views(r@);
            r.push(wanted[i].clone());
            assert(str_views(r@) =~= before.push(wanted@[i as int]@));
        }
        i = i + 1;
    }
    assert(src.take(wanted@.len() as int) =~= src);
    r
}

/// The keys of `m` in ascending order.
pub fn sorted_keys<V>(m: &IdMap<V>) -> (r: Vec<String>)
    requires
        m.wf(),
    ensures
        lists_sorted(str_views(r@), m.view().dom()),
{
    proof {
        m.lemma_wf();
    }
    let mut keys: Vec<String> = Vec::new();
    let mut i: usize = 0;
    let n = m.len();
    while i < n
        invariant
            n == m.key_seq().len(),
            m.wf(),
            i <= n,
            str_views(keys@) == m.key_seq().take(i as int),
        decreases n - i,
    {
        let (k, _) = m.entry(i);
        let ghost before = str_views(keys@);
        let key = k.clone();
        assert(key@ == k@);
        keys.push(key);
        assert(str_views(keys@) =~= before.push(k@));
        assert(m.key_seq().take(i + 1) =~= m.key_seq().take(i as int).push(m.key_seq()[i as int]));
        i = i + 1;
        assert(str_views(keys@) =~= m.key_seq().take(i as int));
    }
    assert(m.key_seq().take(n as int) =~= m.key_seq());
    sorted_strings(keys)
}

} // verus!

verus! {

fn classify(
    w: &Vec<String>,
    steam: &IdMap<SteamCopy>,
    library: &IdMap<LibraryEntry>,
    installed: &IdMap<u64>,
    latest: &IdMap<u64>,
) -> (r: (Vec<String>, Vec<String>, Vec<String>, Vec<String>))
    requires
        steam.wf(),
        library.wf(),
        installed.wf(),
        latest.wf(),
    ensures
        str_views(r.0@) == str_views(w@).filter(
            keeps_subscribed(steam.view(), library.view(), latest.view()),
        ),
        str_views(r.1@) == str_views(w@).filter(needs_store(steam.view(), library.view())),
        str_views(r.2@) == str_views(w@).filter(
            needs_install(steam.view(), library.view(), installed.view(), latest.view()),
        ),
        str_views(r.3@) == str_views(w@).filter(
            drops_unpacked(steam.view(), library.view(), installed.view(), latest.view()),
        ),
{
    let ghost ws = str_views(w@);
    let ghost ks = keeps_subscribed(steam.view(), library.view(), latest.view());
    let ghost ns = needs_store(steam.view(), library.view());
    let ghost ni = needs_install(steam.view(), library.view(), installed.view(), latest.view());
    let ghost du = drops_unpacked(steam.view(), library.view(), installed.view(), latest.view());
    let mut subscribe: Vec<String> = Vec::new();
    let mut store: Vec<String> = Vec::new();
    let mut install: Vec<String> = Vec::new();
    let mut uninstall: Vec<String> = Vec::new();
    proof {
        reveal_with_fuel(Seq::<Seq<char>>::filter, 1);
        assert(ws.take(0) =~= Seq::<Seq<char>>::empty());
        assert(str_views(subscribe@) =~= Seq::<Seq<char>>::empty());
    }
    let mut i: usize = 0;
    while i < w.len()
        invariant
            i <= w@.len(),
            ws == str_views(w@),
            steam.wf(),
            library.wf(),
            installed.wf(),
            latest.wf(),
            ks == keeps_subscribed(steam.view(), library.view(), latest.view()),
            ns == needs_store(steam.view(), library.view()),
            ni == needs_install(steam.view(), library.view(), installed.view(), latest.view()),
            du == drops_unpacked(steam.view(), library.view(), installed.view(), latest.view()),
            str_views(subscribe@) == ws.take(i as int).filter(ks),
            str_views(store@) == ws.take(i as int).filter(ns),
            str_views(install@) == ws.take(i as int).filter(ni),
            str_views(uninstall@) == ws.take(i as int).filter(du),
        decreases w.len() - i,
    {
        let id = w[i].as_str();
        let ghost x = ws[i as int];
        assert(x == id@);
        proof {
            reveal_with_fuel(Seq::<Seq<char>>::filter, 1);
            assert(ws.take(i + 1).drop_last() =~= ws.take(i as int));
            assert(ws.take(i + 1).last() == x);
        }
        let copy = steam.get(id);
        let stored = library.get(id);
        let unpacked = installed.get(id);
        let newest = latest.get(id);
        let usable_here = match stored {
            Some(e) => match newest {
                Some(t) => e.time_updated >= *t,
                None => true,
            },
            None => false,
        };
        assert(usable_here == usable(library.view(), latest.view(), x));
        let keep = copy.is_some() || !usable_here;
        let st = match copy {
            Some(c) => match stored {
                Some(e) => e.time_updated < c.time_updated,
                None => true,
            },
            None => false,
        };
        let inst = copy.is_none() && usable_here && match stored {
            Some(e) => match unpacked {
                Some(t) => *t != e.time_updated,
                None => true,
            },
            None => true,
        };
        let drop = keep && unpacked.is_some();
        assert(keep == ks(x));
        assert(st == ns(x));
        assert(inst == ni(x));
        assert(drop == du(x));
        let ghost s0 = str_views(subscribe@);
        let ghost s1 = str_views(store@);
        let ghost s2 = str_views(install@);
        let ghost s3 = str_views(uninstall@);
        if keep {
            subscribe.push(w[i].clone());
            assert(str_views(subscribe@) =~= s0.push(x));
        }
        if st {
            store.push(w[i].clone());
            assert(str_views(store@) =~= s1.push(x));
        }
        if inst {
            install.push(w[i].clone());
            assert(str_views(install@) =~= s2.push(x));
        }
        if drop {
            uninstall.push(w[i].clone());
            assert(str_views(uninstall@) =~= s3.push(x));
        }
        i = i + 1;
    }
    assert(ws.take(w@.len() as int) =~= ws);
    (subscribe, store, install, uninstall)
}

} // verus!

verus! {

/// The members of the ascending list `sorted` that `w` does not hold, still ascending.
fn unwanted(sorted: &Vec<String>, w: &Vec<String>) -> (r: Vec<String>)
    requires
        strictly_sorted(str_views(sorted@)),
    ensures
        lists_sorted(
            str_views(r@),
            str_views(sorted@).to_set().filter(|id: Seq<char>| !str_views(w@).contains(id)),
        ),
{
    let ghost s = str_views(sorted@);
    let ghost ws = str_views(w@);
    let mut r: Vec<String> = Vec::new();
    let mut j: usize = 0;
    assert(str_views(r@).to_set() =~= s.take(0).to_set().filter(
        |id: Seq<char>| !ws.contains(id),
    ));
    while j < sorted.len()
        invariant
            j <= sorted@.len(),
            s == str_views(sorted@),
            ws == str_views(w@),
            strictly_sorted(s),
            strictly_sorted(str_views(r@)),
            str_views(r@).to_set() == s.take(j as int).to_set().filter(
                |id: Seq<char>| !ws.contains(id),
            ),
        decreases sorted.len() - j,
    {
        let x = sorted[j].as_str();
        let ghost before = str_views(r@);
        assert(s[j as int] == x@);
        assert(s.take(j + 1) =~= s.take(j as int).push(x@));
        proof {
            s.take(j as int).lemma_push_to_set_commute(x@);
        }
        if !contains_str(w, x) {
            proof {
                assert forall|a: int| 0 <= a < before.len() implies crate::order::seq_lt(
                    #[trigger] before[a],
                    x@,
                ) by {
                    assert(before.to_set().contains(before[a]));
                    let k = choose|k: int| 0 <= k < j && s.take(j as int)[k] == before[a];
                    assert(s[k] == before[a]);
                }
            }
            r.push(sorted[j].clone());
            proof {
                let after = str_views(r@);
                assert(after =~= before.push(x@));
                assert(strictly_sorted(after)) by {
                    assert forall|a: int, b: int| 0 <= a < b < after.len() implies crate::order::seq_lt(
                        #[trigger] after[a],
                        #[trigger] after[b],
                    ) by {
                        if b == before.len() {
                            assert(after[a] == before[a]);
                        } else {
                            assert(after[a] == before[a] && after[b] == before[b]);
                        }
                    }
                }
                before.lemma_push_to_set_commute(x@);
                assert(after.to_set() =~= s.take(j + 1).to_set().filter(
                    |id: Seq<char>| !ws.contains(id),
                ));
            }
        } else {
            assert(str_views(r@).to_set() =~= s.take(j + 1).to_set().filter(
                |id: Seq<char>| !ws.contains(id),
            ));
        }
        j = j + 1;
    }
    assert(s.take(sorted@.len() as int) =~= s);
    r
}

/// Steam copies of mods outside `w` that the library holds at least as new, ascending.
fn droppable_ids(w: &Vec<String>, steam: &IdMap<SteamCopy>, library: &IdMap<LibraryEntry>) -> (r:
    Vec<String>)
    requires
        steam.wf(),
        library.wf(),
    ensures
        lists_sorted(str_views(r@), droppable(str_views(w@), steam.view(), library.view())),
{
    proof {
        steam.lemma_wf();
    }
    let ghost ws = str_views(w@);
    let ghost keys = steam.key_seq();
    let ghost pred = |id: Seq<char>|
        !ws.contains(id) && library.view().contains_key(id) && library.view()[id].time_updated
            >= steam.view()[id].time_updated;
    let mut found: Vec<String> = Vec::new();
    let n = steam.len();
    let mut i: usize = 0;
    assert(str_views(found@).to_set() =~= keys.take(0).to_set().filter(pred));
    while i < n
        invariant
            n == keys.len(),
            i <= n,
            steam.wf(),
            library.wf(),
            keys == steam.key_seq(),
            keys.no_duplicates(),
            ws == str_views(w@),
            pred == (|id: Seq<char>|
                !ws.contains(id) && library.view().contains_key(id)
                    && library.view()[id].time_updated >= steam.view()[id].time_updated),
            str_views(found@).no_duplicates(),
            str_views(found@).to_set() == keys.take(i as int).to_set().filter(pred),
        decreases n - i,
    {
        let (id, copy) = steam.entry(i);
        let ghost before = str_views(found@);
        assert(keys[i as int] == id@);
        assert(keys.take(i + 1) =~= keys.take(i as int).push(id@));
        proof {
            keys.take(i as int).lemma_push_to_set_commute(id@);
        }
        let keep = !contains_str(w, id.as_str()) && match library.get(id.as_str()) {
            Some(e) => e.time_updated >= copy.time_updated,
            None => false,
        };
        assert(keep == pred(id@));
        if keep {
            proof {
                assert(!before.contains(id@)) by {
                    if before.contains(id@) {
                        assert(before.to_set().contains(id@));
                        let k = choose|k: int| 0 <= k < i && keys.take(i as int)[k] == id@;
                        assert(keys[k] == keys[i as int]);
                    }
                }
            }
            found.push(id.clone());
            proof {
                assert(str_views(found@) =~= before.push(id@));
                before.lemma_push_to_set_commute(id@);
                assert(str_views(found@).to_set() =~= keys.take(i + 1).to_set().filter(pred));
            }
        } else {
            assert(str_views(found@).to_set() =~= keys.take(i + 1).to_set().filter(pred));
        }
        i = i + 1;
    }
    assert(keys.take(n as int) =~= keys);
    assert(keys.to_set().filter(pred) =~= droppable(ws, steam.view(), library.view()));
    sorted_strings(found)
}

} // verus!

verus! {

/// Decides, for the wanted mods (duplicates ignored), which Steam copies to compress into the
/// library, which library mods to unpack, which unpacked mods to remove, which items Steam
/// keeps or downloads, and which stored items Steam may drop. With the library turned off
/// Steam keeps everything and all unpacked mods go. Map keys are the Workshop IDs.
pub fn plan(
    wanted: &Vec<String>,
    steam: &IdMap<SteamCopy>,
    library: &IdMap<LibraryEntry>,
    installed: &IdMap<u64>,
    latest: &IdMap<u64>,
    enabled: bool,
) -> (p: Plan)
    requires
        steam.wf(),
        library.wf(),
        installed.wf(),
        latest.wf(),
    ensures
        plan_spec(
            p,
            str_views(wanted@),
            steam.view(),
            library.view(),
            installed.view(),
            latest.view(),
            enabled,
        ),
{
    let w = dedup_ids(wanted);
    let sorted_installed = sorted_keys(installed);
    if !enabled {
        return Plan {
            store: Vec::new(),
            install: Vec::new(),
            uninstall: sorted_installed,
            subscribe: w,
            unsubscribe: Vec::new(),
        };
    }
    let (subscribe, store, install, mut uninstall) = classify(
        &w,
        steam,
        library,
        installed,
        latest,
    );
    let tail = unwanted(&sorted_installed, &w);
    let ghost head = str_views(uninstall@);
    let mut k: usize = 0;
    while k < tail.len()
        invariant
            k <= tail@.len(),
            str_views(uninstall@) == head + str_views(tail@).take(k as int),
        decreases tail.len() - k,
    {
        let ghost before = str_views(uninstall@);
        let item = tail[k].clone();
        assert(item@ == str_views(tail@)[k as int]);
        uninstall.push(item);
        assert(str_views(uninstall@) =~= before.push(str_views(tail@)[k as int]));
        k = k + 1;
        assert(str_views(uninstall@) =~= head + str_views(tail@).take(k as int));
    }
    proof {
        assert(str_views(tail@).take(tail@.len() as int) =~= str_views(tail@));
        assert(str_views(uninstall@).take(head.len() as int) =~= head);
        assert(str_views(uninstall@).skip(head.len() as int) =~= str_views(tail@));
        let ws = str_views(w@);
        assert(str_views(sorted_installed@).to_set().filter(|id: Seq<char>| !ws.contains(id))
            =~= installed.view().dom().filter(|id: Seq<char>| !dedup(str_views(wanted@)).contains(id)));
    }
    let unsubscribe = droppable_ids(&w, steam, library);
    Plan { store, install, uninstall, subscribe, unsubscribe }
}

} // verus!

verus! {

pub proof fn lemma_filter_mem(s: Seq<Seq<char>>, pred: spec_fn(Seq<char>) -> bool, x: Seq<char>)
    ensures
        s.filter(pred).contains(x) == (s.contains(x) && pred(x)),
    decreases s.len(),
{
    reveal_with_fuel(Seq::<Seq<char>>::filter, 1);
    if s.len() > 0 {
        lemma_filter_mem(s.drop_last(), pred, x);
        let f = s.drop_last().filter(pred);
        if s.contains(x) && s.last() != x {
            let k = choose|k: int| 0 <= k < s.len() && s[k] == x;
            assert(s.drop_last()[k] == x);
        }
        if s.drop_last().contains(x) {
            let k = choose|k: int| 0 <= k < s.len() - 1 && s.drop_last()[k] == x;
            assert(s[k] == x);
        }
        if pred(s.last()) {
            assert(s.filter(pred) == f.push(s.last()));
            if f.push(s.last()).contains(x) && x != s.last() {
                let k = choose|k: int| 0 <= k < f.len() + 1 && f.push(s.last())[k] == x;
                assert(f[k] == x);
            }
            if f.contains(x) {
                let k = choose|k: int| 0 <= k < f.len() && f[k] == x;
                assert(f.push(s.last())[k] == x);
            }
            assert(f.push(s.last())[f.len() as int] == s.last());
        }
        assert(s[s.len() - 1] == s.last());
    }
}

pub proof fn lemma_dedup_mem(s: Seq<Seq<char>>, x: Seq<char>)
    ensures
        dedup(s).contains(x) == s.contains(x),
    decreases s.len(),
{
    if s.len() > 0 {
        lemma_dedup_mem(s.drop_last(), x);
        let d = dedup(s.drop_last());
        if s.contains(x) && s.last() != x {
            let k = choose|k: int| 0 <= k < s.len() && s[k] == x;
            assert(s.drop_last()[k] == x);
        }
        if s.drop_last().contains(x) {
            let k = choose|k: int| 0 <= k < s.len() - 1 && s.drop_last()[k] == x;
            assert(s[k] == x);
        }
        if !d.contains(s.last()) {
            if d.push(s.last()).contains(x) && x != s.last() {
                let k = choose|k: int| 0 <= k < d.len() + 1 && d.push(s.last())[k] == x;
                assert(d[k] == x);
            }
            if d.contains(x) {
                let k = choose|k: int| 0 <= k < d.len() && d[k] == x;
                assert(d.push(s.last())[k] == x);
            }
            assert(d.push(s.last())[d.len() as int] == s.last());
        }
        assert(s[s.len() - 1] == s.last());
    }
}

/// With the library on, every wanted mod is provided: Steam keeps or downloads it, the
/// library unpacks it, or its unpacked copy is already the library's version.
pub proof fn lemma_plan_provides_every_wanted_mod(
    p: Plan,
    wanted: Seq<Seq<char>>,
    steam: Map<Seq<char>, SteamCopy>,
    library: Map<Seq<char>, LibraryEntry>,
    installed: Map<Seq<char>, u64>,
    latest: Map<Seq<char>, u64>,
    id: Seq<char>,
)
    requires
        plan_spec(p, wanted, steam, library, installed, latest, true),
        wanted.contains(id),
    ensures
        str_views(p.subscribe@).contains(id) || str_views(p.install@).contains(id) || (usable(
            library,
            latest,
            id,
        ) && installed.contains_key(id) && installed[id] == library[id].time_updated),
{
    let w = dedup(wanted);
    lemma_dedup_mem(wanted, id);
    lemma_filter_mem(w, keeps_subscribed(steam, library, latest), id);
    lemma_filter_mem(w, needs_install(steam, library, installed, latest), id);
}

/// Steam is only asked to drop an item that the preset does not want and that the library
/// holds at a version at least as new as Steam's.
pub proof fn lemma_plan_drops_only_stored_unwanted_items(
    p: Plan,
    wanted: Seq<Seq<char>>,
    steam: Map<Seq<char>, SteamCopy>,
    library: Map<Seq<char>, LibraryEntry>,
    installed: Map<Seq<char>, u64>,
    latest: Map<Seq<char>, u64>,
    enabled: bool,
    id: Seq<char>,
)
    requires
        plan_spec(p, wanted, steam, library, installed, latest, enabled),
        str_views(p.unsubscribe@).contains(id),
    ensures
        steam.contains_key(id),
        !wanted.contains(id),
        library.contains_key(id),
        library[id].time_updated >= steam[id].time_updated,
{
    lemma_dedup_mem(wanted, id);
    if !enabled {
        let k = choose|k: int| 0 <= k < str_views(p.unsubscribe@).len() && str_views(p.unsubscribe@)[k] == id;
        assert(false);
    }
    assert(str_views(p.unsubscribe@).to_set().contains(id));
}

/// A mod that the library unpacks is neither compressed from Steam nor removed in the same
/// apply.
pub proof fn lemma_plan_install_disjoint(
    p: Plan,
    wanted: Seq<Seq<char>>,
    steam: Map<Seq<char>, SteamCopy>,
    library: Map<Seq<char>, LibraryEntry>,
    installed: Map<Seq<char>, u64>,
    latest: Map<Seq<char>, u64>,
    enabled: bool,
    id: Seq<char>,
)
    requires
        plan_spec(p, wanted, steam, library, installed, latest, enabled),
        str_views(p.install@).contains(id),
    ensures
        !str_views(p.store@).contains(id),
        !str_views(p.uninstall@).contains(id),
        !str_views(p.subscribe@).contains(id),
{
    if !enabled {
        let k = choose|k: int| 0 <= k < str_views(p.install@).len() && str_views(p.install@)[k] == id;
        assert(false);
    }
    let w = dedup(wanted);
    let du = drops_unpacked(steam, library, installed, latest);
    lemma_filter_mem(w, needs_install(steam, library, installed, latest), id);
    lemma_filter_mem(w, needs_store(steam, library), id);
    lemma_filter_mem(w, keeps_subscribed(steam, library, latest), id);
    lemma_filter_mem(w, du, id);
    let u = str_views(p.uninstall@);
    let h = w.filter(du).len() as int;
    if u.contains(id) {
        let k = choose|k: int| 0 <= k < u.len() && u[k] == id;
        if k < h {
            assert(u.take(h)[k] == id);
            assert(w.filter(du).contains(id));
        } else {
            assert(u.skip(h)[k - h] == id);
            assert(u.skip(h).to_set().contains(id));
        }
    }
}

} // verus!

verus! {

/// The pieces between the 1st and 2nd, 3rd and 4th, ... `"` of a line (its quoted words).
pub open spec fn odd_pieces(p: Seq<Seq<char>>) -> Seq<Seq<char>> {
    Seq::new((p.len() / 2) as nat, |k: int| p[2 * k + 1])
}

pub open spec fn quoted_words(line: Seq<char>) -> Seq<Seq<char>> {
    odd_pieces(crate::text::split(line, '"'))
}

/// `line.split('"').skip(1).step_by(2)`.
pub fn quoted(line: &[char]) -> (r: Vec<Vec<char>>)
    ensures
        r@.map_values(|q: Vec<char>| q@) == quoted_words(line@),
{
    let pieces = crate::text::split_chars(line, '"');
    let ghost p = crate::text::split(line@, '"');
    let mut r: Vec<Vec<char>> = Vec::new();
    let mut k: usize = 0;
    let mut idx: usize = if pieces.len() == 0 { 0 } else { 1 };
    while idx < pieces.len()
        invariant
            idx < pieces@.len() ==> idx == 2 * k + 1,
            idx >= pieces@.len() ==> idx == pieces@.len() && 2 * k + 1 >= pieces@.len(),
            2 * k <= pieces@.len(),
            pieces@.map_values(|q: Vec<char>| q@) == p,
            r@.map_values(|q: Vec<char>| q@) == Seq::new(k as nat, |j: int| p[2 * j + 1]),
        decreases pieces.len() - idx,
    {
        let ghost before = r@.map_values(|q: Vec<char>| q@);
        assert(pieces@[idx as int]@ == p[2 * k + 1]);
        r.push(crate::text::copy_chars(&pieces[idx]));
        assert(r@.map_values(|q: Vec<char>| q@) =~= before.push(p[2 * k + 1]));
        k = k + 1;
        assert(r@.map_values(|q: Vec<char>| q@) =~= Seq::new(k as nat, |j: int| p[2 * j + 1]));
        if pieces.len() - idx <= 2 {
            idx = pieces.len();
        } else {
            idx = idx + 2;
        }
    }
    assert(k == pieces@.len() / 2);
    assert(r@.map_values(|q: Vec<char>| q@) =~= odd_pieces(p));
    r
}

/// Reading state of `appworkshop_4000.acf`.
pub struct AcfState {
    pub depth: nat,
    pub in_installed: bool,
    pub installed_depth: nat,
    pub current: Option<Seq<char>>,
    pub pending: Option<Seq<char>>,
    pub times: Map<Seq<char>, u64>,
}

pub open spec fn acf_start() -> AcfState {
    AcfState {
        depth: 0,
        in_installed: false,
        installed_depth: 0,
        current: None,
        pending: None,
        times: Map::empty(),
    }
}

/// One line of the file: `{` and `}` track nesting, a lone quoted word is the key of the
/// block that follows, and `"timeupdated" "N"` inside an installed item records N.
pub open spec fn acf_step(s: AcfState, line: Seq<char>) -> AcfState {
    let t = crate::text::trim(line);
    if t == seq!['{'] {
        let depth = s.depth + 1;
        match s.pending {
            Some(key) => if key == "WorkshopItemsInstalled"@ {
                AcfState { depth, in_installed: true, installed_depth: depth, pending: None, ..s }
            } else if s.in_installed && depth == s.installed_depth + 1 {
                AcfState { depth, current: Some(key), pending: None, ..s }
            } else {
                AcfState { depth, pending: None, ..s }
            },
            None => AcfState { depth, ..s },
        }
    } else if t == seq!['}'] {
        let current = if s.in_installed && s.depth == s.installed_depth + 1 {
            None
        } else {
            s.current
        };
        let in_installed = if s.in_installed && s.depth == s.installed_depth {
            false
        } else {
            s.in_installed
        };
        let depth: nat = if s.depth > 0 {
            (s.depth - 1) as nat
        } else {
            0
        };
        AcfState { depth, current, in_installed, ..s }
    } else {
        let q = quoted_words(t);
        if q.len() == 1 {
            AcfState { pending: Some(q[0]), ..s }
        } else if q.len() == 2 && s.current is Some && crate::text::ascii_lower(q[0])
            == "timeupdated"@ && crate::text::parse_u64(q[1]) is Some {
            AcfState { times: s.times.insert(s.current->0, crate::text::parse_u64(q[1])->0), ..s }
        } else {
            s
        }
    }
}

pub open spec fn acf_run(lines: Seq<Seq<char>>) -> AcfState
    decreases lines.len(),
{
    if lines.len() == 0 {
        acf_start()
    } else {
        acf_step(acf_run(lines.drop_last()), lines.last())
    }
}

/// `timeupdated` of each installed item in `appworkshop_4000.acf`.
pub open spec fn spec_acf_times(text: Seq<char>) -> Map<Seq<char>, u64> {
    acf_run(crate::text::lines(text)).times
}

} // verus!

verus! {

pub open spec fn opt_view(o: Option<Vec<char>>) -> Option<Seq<char>> {
    match o {
        Some(v) => Some(v@),
        None => None,
    }
}

fn eq_lit(v: &[char], lit: &str) -> (r: bool)
    ensures
        r == (v@ == lit@),
{
    crate::text::chars_equal(v, &chars_of(lit))
}

proof fn lemma_braces()
    ensures
        "{"@ == seq!['{'],
        "}"@ == seq!['}'],
{
    reveal_strlit("{");
    reveal_strlit("}");
    assert("{"@ =~= seq!['{']);
    assert("}"@ =~= seq!['}']);
}

/// Reads `timeupdated` for each installed item from `appworkshop_4000.acf`.
pub fn acf_times(text: &str) -> (r: IdMap<u64>)
    ensures
        r.wf(),
        r.view() == spec_acf_times(text@),
{
    let lines = crate::text::lines_of(&chars_of(text));
    let ghost ls = crate::text::lines(text@);
    let mut depth: usize = 0;
    let mut in_installed = false;
    let mut installed_depth: usize = 0;
    let mut current: Option<Vec<char>> = None;
    let mut pending: Option<Vec<char>> = None;
    let mut times: IdMap<u64> = IdMap::new();
    let mut i: usize = 0;
    proof {
        lemma_braces();
        assert(ls.take(0) =~= Seq::<Seq<char>>::empty());
    }
    while i < lines.len()
        invariant
            i <= lines@.len(),
            lines@.map_values(|q: Vec<char>| q@) == ls,
            "{"@ == seq!['{'],
            "}"@ == seq!['}'],
            depth <= i,
            times.wf(),
            ({
                let s = acf_run(ls.take(i as int));
                &&& s.depth == depth as nat
                &&& s.in_installed == in_installed
                &&& s.installed_depth == installed_depth as nat
                &&& s.current == opt_view(current)
                &&& s.pending == opt_view(pending)
                &&& s.times == times.view()
            }),
        decreases lines.len() - i,
    {
        assert(ls.take(i + 1).drop_last() =~= ls.take(i as int));
        assert(ls.take(i + 1).last() == lines@[i as int]@);
        let t = crate::text::trim_chars(&lines[i]);
        if eq_lit(&t, "{") {
            depth = depth + 1;
            match pending {
                Some(key) => {
                    if eq_lit(&key, "WorkshopItemsInstalled") {
                        in_installed = true;
                        installed_depth = depth;
                    } else if in_installed && installed_depth < depth && depth - installed_depth
                        == 1 {
                        current = Some(key);
                    }
                },
                None => {},
            }
            pending = None;
        } else if eq_lit(&t, "}") {
            if in_installed && depth > installed_depth && depth - installed_depth == 1 {
                current = None;
            }
            if in_installed && depth == installed_depth {
                in_installed = false;
            }
            if depth > 0 {
                depth = depth - 1;
            }
        } else {
            let q = quoted(&t);
            assert(q@.len() == quoted_words(t@).len());
            if q.len() == 1 {
                assert(q@[0]@ == quoted_words(t@)[0]);
                pending = Some(crate::text::copy_chars(&q[0]));
            } else if q.len() == 2 {
                assert(q@[0]@ == quoted_words(t@)[0]);
                assert(q@[1]@ == quoted_words(t@)[1]);
                match &current {
                    Some(id) => {
                        let key = crate::text::lower_chars(&q[0]);
                        if eq_lit(&key, "timeupdated") {
                            match crate::text::parse_u64_chars(&q[1]) {
                                Some(time) => {
                                    times.insert(string_of(id), time);
                                },
                                None => {},
                            }
                        }
                    },
                    None => {},
                }
            }
        }
        i = i + 1;
    }
    assert(ls.take(lines@.len() as int) =~= ls);
    times
}

} // verus!
