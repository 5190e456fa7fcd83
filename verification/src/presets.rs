//! Managing presets: the ID a new preset gets, how an imported preset whose ID is taken is
//! renumbered, and the mods a Workshop item brings into a preset.

use crate::details::WorkshopSearchItem;
use crate::idmap::IdMap;
use crate::library::contains_str;
use crate::model::{Profile, WorkshopItem};
use crate::preview::item_ids;
use crate::workshop::ItemMeta;
use crate::order::str_views;
use crate::text::{
    chars_of, decimal, digit_char, lower, lower_char, push_all, push_decimal, push_str, split, split_chars,
    string_of, trim, trim_chars,
};
use vstd::prelude::*;

verus! {

pub open spec fn is_alnum(c: char) -> bool {
    ||| ('0' <= c && c <= '9')
    ||| ('a' <= c && c <= 'z')
    ||| ('A' <= c && c <= 'Z')
}

/// A letter or digit in lower case; any other character a `-`.
pub open spec fn slug_char(c: char) -> char {
    if is_alnum(c) {
        lower_char(c)
    } else {
        '-'
    }
}

/// The non-empty words, joined by `-`.
pub open spec fn join_words(ws: Seq<Seq<char>>) -> Seq<char>
    decreases ws.len(),
{
    if ws.len() == 0 {
        seq![]
    } else {
        let rest = join_words(ws.drop_last());
        let w = ws.last();
        if w.len() == 0 {
            rest
        } else if rest.len() == 0 {
            w
        } else {
            rest + seq!['-'] + w
        }
    }
}

/// The ID a preset name suggests: the trimmed name's ASCII letters and digits in lower case,
/// the words between them joined by single `-`; `preset` when there are none.
pub open spec fn spec_slug(name: Seq<char>) -> Seq<char> {
    let j = join_words(split(trim(name).map_values(|c: char| slug_char(c)), '-'));
    if j.len() == 0 {
        "preset"@
    } else {
        j
    }
}

pub fn preset_slug(name: &str) -> (r: String)
    ensures
        r@ == spec_slug(name@),
{
    let t = trim_chars(&chars_of(name));
    let mut mapped: Vec<char> = Vec::new();
    let mut i: usize = 0;
    while i < t.len()
        invariant
            i <= t@.len(),
            mapped@ == t@.take(i as int).map_values(|c: char| slug_char(c)),
        decreases t.len() - i,
    {
        let c = t[i];
        let alnum = ('0' <= c && c <= '9') || ('a' <= c && c <= 'z') || ('A' <= c && c <= 'Z');
        mapped.push(
            if alnum {
                lower(c)
            } else {
                '-'
            },
        );
        i = i + 1;
        assert(mapped@ =~= t@.take(i as int).map_values(|c: char| slug_char(c)));
    }
    assert(t@.take(t@.len() as int) =~= t@);
    let pieces = split_chars(&mapped, '-');
    let ghost pv = pieces@.map_values(|p: Vec<char>| p@);
    let mut out: Vec<char> = Vec::new();
    let mut k: usize = 0;
    assert(pv.take(0) =~= Seq::<Seq<char>>::empty());
    while k < pieces.len()
        invariant
            k <= pieces@.len(),
            pv == pieces@.map_values(|p: Vec<char>| p@),
            out@ == join_words(pv.take(k as int)),
        decreases pieces.len() - k,
    {
        assert(pv.take(k + 1).drop_last() =~= pv.take(k as int));
        assert(pv.take(k + 1).last() == pieces@[k as int]@);
        if pieces[k].len() > 0 {
            if out.len() > 0 {
                out.push('-');
            }
            push_all(&mut out, &pieces[k]);
        }
        k = k + 1;
    }
    assert(pv.take(pieces@.len() as int) =~= pv);
    if out.len() == 0 {
        proof {
            reveal_strlit("preset");
        }
        "preset".to_string()
    } else {
        string_of(&out)
    }
}

/// `<base>-<n>`.
pub open spec fn numbered(base: Seq<char>, n: nat) -> Seq<char> {
    base + "-"@ + decimal(n)
}

/// `n` is the first number from 2 on whose `<base>-<n>` is not taken.
pub open spec fn first_free(base: Seq<char>, taken: Seq<Seq<char>>, n: nat) -> bool {
    &&& n >= 2
    &&& !taken.contains(numbered(base, n))
    &&& forall|m: nat| 2 <= m < n ==> taken.contains(#[trigger] numbered(base, m))
}

/// `base` when it is free, else `<base>-<n>` with the first free `n` from 2.
pub open spec fn free_id(base: Seq<char>, taken: Seq<Seq<char>>) -> Seq<char> {
    if !taken.contains(base) {
        base
    } else {
        numbered(base, choose|n: nat| first_free(base, taken, n))
    }
}

proof fn lemma_decimal_len(n: nat)
    ensures
        decimal(n).len() >= 1,
        n >= 10 ==> decimal(n).len() >= 2,
    decreases n,
{
    if n >= 10 {
        lemma_decimal_len(n / 10);
    }
}

/// Different numbers have different decimal texts.
pub proof fn lemma_decimal_injective(a: nat, b: nat)
    requires
        decimal(a) == decimal(b),
    ensures
        a == b,
    decreases a,
{
    lemma_decimal_len(a);
    lemma_decimal_len(b);
    if a < 10 && b < 10 {
        assert(decimal(a) == seq![digit_char(a)]);
        assert(decimal(b) == seq![digit_char(b)]);
        assert(decimal(a)[0] == digit_char(a));
        assert(decimal(b)[0] == digit_char(b));
        assert(((a + 48) as u32) as char == ((b + 48) as u32) as char);
        assert((((a + 48) as u32) as char) as u32 == (a + 48) as u32);
        assert((((b + 48) as u32) as char) as u32 == (b + 48) as u32);
    } else if a >= 10 && b >= 10 {
        let da = decimal(a);
        let db = decimal(b);
        assert(da.last() == db.last());
        assert(((a % 10 + 48) as u32) as char == ((b % 10 + 48) as u32) as char);
        assert((((a % 10 + 48) as u32) as char) as u32 == (a % 10 + 48) as u32);
        assert((((b % 10 + 48) as u32) as char) as u32 == (b % 10 + 48) as u32);
        assert(da.drop_last() =~= decimal(a / 10));
        assert(db.drop_last() =~= decimal(b / 10));
        lemma_decimal_injective(a / 10, b / 10);
    }
}

proof fn lemma_numbered_injective(base: Seq<char>, a: nat, b: nat)
    requires
        numbered(base, a) == numbered(base, b),
    ensures
        a == b,
{
    reveal_strlit("-");
    let k: int = base.len() as int + 1;
    assert(numbered(base, a).skip(k) =~= decimal(a));
    assert(numbered(base, b).skip(k) =~= decimal(b));
    lemma_decimal_injective(a, b);
}

proof fn lemma_first_free_unique(base: Seq<char>, taken: Seq<Seq<char>>, a: nat, b: nat)
    requires
        first_free(base, taken, a),
        first_free(base, taken, b),
    ensures
        a == b,
{
    if a < b {
        assert(taken.contains(numbered(base, a)));
    } else if b < a {
        assert(taken.contains(numbered(base, b)));
    }
}

fn numbered_string(base: &str, n: u64) -> (r: String)
    ensures
        r@ == numbered(base@, n as nat),
{
    let mut v = chars_of(base);
    push_str(&mut v, "-");
    push_decimal(&mut v, n);
    proof {
        reveal_strlit("-");
    }
    string_of(&v)
}

/// The first free number for `base`: `None` when `base` itself is free.
pub fn free_suffix(base: &str, taken: &Vec<String>) -> (r: Option<u64>)
    requires
        taken@.len() + 2 <= u64::MAX,
    ensures
        r is None <==> !str_views(taken@).contains(base@),
        r matches Some(n) ==> first_free(base@, str_views(taken@), n as nat),
{
    if !contains_str(taken, base) {
        return None;
    }
    let ghost tv = str_views(taken@);
    let mut n: u64 = 2;
    let mut id = numbered_string(base, n);
    let ghost mut seen: Set<Seq<char>> = Set::empty();
    proof {
        tv.lemma_cardinality_of_set();
    }
    while contains_str(taken, id.as_str())
        invariant
            tv == str_views(taken@),
            tv.len() + 2 <= u64::MAX,
            tv.to_set().len() <= tv.len(),
            2 <= n,
            id@ == numbered(base@, n as nat),
            forall|m: nat| 2 <= m < n ==> tv.contains(#[trigger] numbered(base@, m)),
            seen.finite(),
            seen.len() == n - 2,
            seen.subset_of(tv.to_set()),
            forall|x: Seq<char>|
                seen.contains(x) ==> exists|m: nat| 2 <= m < n && x == #[trigger] numbered(base@, m),
        decreases tv.len() + 2 - n,
    {
        proof {
            let x = numbered(base@, n as nat);
            if seen.contains(x) {
                let m = choose|m: nat| 2 <= m < n && x == #[trigger] numbered(base@, m);
                lemma_numbered_injective(base@, m, n as nat);
            }
            seen = seen.insert(x);
            vstd::set_lib::lemma_len_subset(seen, tv.to_set());
            assert forall|y: Seq<char>| seen.contains(y) implies exists|m: nat|
                2 <= m < n + 1 && y == #[trigger] numbered(base@, m) by {
                if y == x {
                    assert(y == numbered(base@, n as nat));
                } else {
                    let m = choose|m: nat| 2 <= m < n && y == #[trigger] numbered(base@, m);
                    assert(2 <= m < n + 1);
                }
            }
            assert forall|m: nat| 2 <= m < n + 1 implies tv.contains(#[trigger] numbered(base@, m)) by {
                if m == n {
                    assert(tv.contains(x));
                }
            }
        }
        n = n + 1;
        id = numbered_string(base, n);
    }
    Some(n)
}

/// The ID and name of a new preset: the name trimmed, and the first free ID among its slug
/// and the slug numbered from 2. `None` for a blank name.
pub fn new_preset_id(name: &str, taken: &Vec<String>) -> (r: Option<(String, String)>)
    requires
        taken@.len() + 2 <= u64::MAX,
    ensures
        r is None <==> trim(name@).len() == 0,
        r matches Some(p) ==> p.0@ == free_id(spec_slug(name@), str_views(taken@)) && p.1@ == trim(
            name@,
        ),
        r matches Some(p) ==> !str_views(taken@).contains(p.0@),
{
    let t = trim_chars(&chars_of(name));
    if t.len() == 0 {
        return None;
    }
    let base = preset_slug(name);
    let id = match free_suffix(base.as_str(), taken) {
        None => base,
        Some(n) => {
            proof {
                let tv = str_views(taken@);
                let c = choose|m: nat| first_free(base@, tv, m);
                lemma_first_free_unique(base@, tv, c, n as nat);
            }
            numbered_string(base.as_str(), n)
        },
    };
    Some((id, string_of(&t)))
}

/// An imported preset whose ID another preset has: renumbered with the first free number from
/// 2, which also follows its name as ` (<n>)`.
pub open spec fn renamed_import(old: Profile, new: Profile, taken: Seq<Seq<char>>) -> bool {
    &&& new.schema_version == old.schema_version
    &&& new.description == old.description
    &&& new.source == old.source
    &&& new.workshop == old.workshop
    &&& new.optional_custom_files == old.optional_custom_files
    &&& new.sync == old.sync
    &&& new.binds == old.binds
    &&& new.convars == old.convars
    &&& new.file_mappings == old.file_mappings
    &&& if !taken.contains(old.id@) {
        new.id@ == old.id@ && new.name@ == old.name@
    } else {
        exists|n: nat|
            first_free(old.id@, taken, n) && new.id@ == numbered(old.id@, n) && new.name@ == old.name@
                + " ("@ + decimal(n) + ")"@
    }
}

pub fn rename_import(profile: &mut Profile, taken: &Vec<String>)
    requires
        taken@.len() + 2 <= u64::MAX,
    ensures
        renamed_import(*old(profile), *final(profile), str_views(taken@)),
        !str_views(taken@).contains(final(profile).id@),
{
    match free_suffix(profile.id.as_str(), taken) {
        None => {},
        Some(n) => {
            let id = numbered_string(profile.id.as_str(), n);
            let mut name = chars_of(profile.name.as_str());
            push_str(&mut name, " (");
            push_decimal(&mut name, n);
            push_str(&mut name, ")");
            profile.id = id;
            profile.name = string_of(&name);
        },
    }
}

/// An item added by hand that Steam still has.
pub open spec fn added_by_hand(item: WorkshopItem, id: Seq<char>, title: Option<Seq<char>>) -> bool {
    &&& item.id@ == id
    &&& match (item.title, title) {
        (Some(t), Some(u)) => t@ == u,
        (None, None) => true,
        _ => false,
    }
    &&& item.available
    &&& item.manually_added
}

/// The items a Workshop search hit brings into a preset: the hit under its Steam title, then
/// each mod it requires, titled as Steam names it when its details are known.
pub fn added_items(hit: &WorkshopSearchItem, required: &Vec<String>, meta: &IdMap<ItemMeta>) -> (r:
    Vec<WorkshopItem>)
    requires
        meta.wf(),
    ensures
        r@.len() == required@.len() + 1,
        added_by_hand(r@[0], hit.id@, Some(hit.meta.title@)),
        forall|i: int|
            0 <= i < required@.len() ==> added_by_hand(
                #[trigger] r@[i + 1],
                required@[i]@,
                if meta@.contains_key(required@[i]@) {
                    Some(meta@[required@[i]@].title@)
                } else {
                    None
                },
            ),
{
    let mut out: Vec<WorkshopItem> = Vec::new();
    let title = hit.meta.title.clone();
    out.push(WorkshopItem { id: hit.id.clone(), title: Some(title), available: true, manually_added: true });
    let mut i: usize = 0;
    while i < required.len()
        invariant
            i <= required@.len(),
            meta.wf(),
            out@.len() == i + 1,
            added_by_hand(out@[0], hit.id@, Some(hit.meta.title@)),
            forall|j: int|
                0 <= j < i ==> added_by_hand(
                    #[trigger] out@[j + 1],
                    required@[j]@,
                    if meta@.contains_key(required@[j]@) {
                        Some(meta@[required@[j]@].title@)
                    } else {
                        None
                    },
                ),
        decreases required.len() - i,
    {
        let title = match meta.get(required[i].as_str()) {
            Some(m) => Some(m.title.clone()),
            None => None,
        };
        out.push(WorkshopItem { id: required[i].clone(), title, available: true, manually_added: true });
        i = i + 1;
    }
    out
}

/// The new items a preset takes, in order: each whose ID the preset does not have yet, counting
/// the ones taken before it.
pub open spec fn fresh_items(present: Seq<Seq<char>>, new: Seq<WorkshopItem>) -> Seq<WorkshopItem>
    decreases new.len(),
{
    if new.len() == 0 {
        seq![]
    } else if present.contains(new[0].id@) {
        fresh_items(present, new.drop_first())
    } else {
        seq![new[0]] + fresh_items(present.push(new[0].id@), new.drop_first())
    }
}

/// Everything but the items and the mod-syncing switch is unchanged.
pub open spec fn same_but_items(a: Profile, b: Profile) -> bool {
    &&& a.schema_version == b.schema_version
    &&& a.id == b.id
    &&& a.name == b.name
    &&& a.description == b.description
    &&& a.source == b.source
    &&& a.workshop.collection_id == b.workshop.collection_id
    &&& a.optional_custom_files == b.optional_custom_files
    &&& a.sync.binds == b.sync.binds
    &&& a.sync.settings == b.sync.settings
    &&& a.binds == b.binds
    &&& a.convars == b.convars
    &&& a.file_mappings == b.file_mappings
}

fn has_item(items: &Vec<WorkshopItem>, id: &str) -> (r: bool)
    ensures
        r == item_ids(items@).contains(id@),
{
    let mut i: usize = 0;
    while i < items.len()
        invariant
            i <= items@.len(),
            forall|k: int| 0 <= k < i ==> items@[k].id@ != id@,
        decreases items.len() - i,
    {
        if crate::text::str_eq(items[i].id.as_str(), id) {
            assert(item_ids(items@)[i as int] == id@);
            return true;
        }
        i = i + 1;
    }
    proof {
        if item_ids(items@).contains(id@) {
            let k = choose|k: int| 0 <= k < item_ids(items@).len() && item_ids(items@)[k] == id@;
            assert(items@[k].id@ == id@);
        }
    }
    false
}

/// Adds items to a preset, skipping IDs it already has, and returns how many it took. Adding
/// any turns mod syncing on.
pub fn add_items(profile: &mut Profile, items: Vec<WorkshopItem>) -> (r: usize)
    ensures
        final(profile).workshop.items@ == old(profile).workshop.items@ + fresh_items(
            item_ids(old(profile).workshop.items@),
            items@,
        ),
        r == fresh_items(item_ids(old(profile).workshop.items@), items@).len(),
        final(profile).sync.addons == (old(profile).sync.addons || r > 0),
        same_but_items(*final(profile), *old(profile)),
        item_ids(old(profile).workshop.items@).no_duplicates() ==> item_ids(
            final(profile).workshop.items@,
        ).no_duplicates(),
{
    let ghost start = profile.workshop.items@;
    let ghost all = items@;
    let mut rest = items;
    let mut count: usize = 0;
    while rest.len() > 0
        invariant
            same_but_items(*profile, *old(profile)),
            profile.sync.addons == old(profile).sync.addons,
            start == old(profile).workshop.items@,
            profile.workshop.items@.len() == start.len() + count,
            profile.workshop.items@.take(start.len() as int) == start,
            fresh_items(item_ids(start), all) == profile.workshop.items@.skip(start.len() as int)
                + fresh_items(item_ids(profile.workshop.items@), rest@),
            item_ids(start).no_duplicates() ==> item_ids(profile.workshop.items@).no_duplicates(),
        decreases rest.len(),
    {
        let ghost before = profile.workshop.items@;
        let item = rest.remove(0);
        if !has_item(&profile.workshop.items, item.id.as_str()) {
            let ghost id = item.id@;
            profile.workshop.items.push(item);
            assert(item_ids(profile.workshop.items@) =~= item_ids(before).push(id));
            proof {
                if item_ids(before).no_duplicates() {
                    let ids = item_ids(profile.workshop.items@);
                    assert forall|a: int, b: int| 0 <= a < b < ids.len() implies ids[a] != ids[b] by {
                        if b == ids.len() - 1 {
                            assert(item_ids(before)[a] == ids[a]);
                        }
                    }
                }
            }
            assert(profile.workshop.items@.take(start.len() as int) =~= before.take(
                start.len() as int,
            ));
            assert(profile.workshop.items@.skip(start.len() as int) =~= before.skip(
                start.len() as int,
            ).push(profile.workshop.items@.last()));
            let total = profile.workshop.items.len();
            assert(count + 1 <= total);
            count = count + 1;
        }
    }
    assert(profile.workshop.items@ =~= start + profile.workshop.items@.skip(start.len() as int));
    if count > 0 {
        profile.sync.addons = true;
    }
    count
}

/// What the app says after adding mods to a preset.
pub open spec fn added_note(n: nat) -> Seq<char> {
    "Added "@ + decimal(n) + " mod"@ + (if n == 1 {
        seq![]
    } else {
        "s"@
    }) + "; Steam downloads missing mods on Play."@
}

pub fn added_message(count: usize) -> (r: String)
    ensures
        r@ == added_note(count as nat),
{
    let mut v: Vec<char> = Vec::new();
    push_str(&mut v, "Added ");
    push_decimal(&mut v, count as u64);
    push_str(&mut v, " mod");
    if count != 1 {
        push_str(&mut v, "s");
    }
    push_str(&mut v, "; Steam downloads missing mods on Play.");
    proof {
        reveal_strlit("s");
    }
    assert(v@ =~= added_note(count as nat));
    string_of(&v)
}

/// What the app says after refreshing a preset from its collection.
pub open spec fn refresh_note(added: nat, removed: nat) -> Seq<char> {
    if added == 0 && removed == 0 {
        "Collection is unchanged."@
    } else {
        "Collection updated: "@ + decimal(added) + " added, "@ + decimal(removed) + " removed."@
    }
}

pub fn refresh_message(added: usize, removed: usize) -> (r: String)
    ensures
        r@ == refresh_note(added as nat, removed as nat),
{
    if added == 0 && removed == 0 {
        return "Collection is unchanged.".to_string();
    }
    let mut v: Vec<char> = Vec::new();
    push_str(&mut v, "Collection updated: ");
    push_decimal(&mut v, added as u64);
    push_str(&mut v, " added, ");
    push_decimal(&mut v, removed as u64);
    push_str(&mut v, " removed.");
    assert(v@ =~= refresh_note(added as nat, removed as nat));
    string_of(&v)
}

} // verus!
