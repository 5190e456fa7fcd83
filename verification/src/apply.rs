//! What an apply changes in the game folder: the previewed file writes, the library work for a
//! preset's mods, and the record of mods it unpacked or removed, which an undo reverses.

use crate::idmap::IdMap;
use crate::library::{plan, plan_spec, Library, LibraryEntry, Plan, SteamCopy};
use crate::model::{Profile, WorkshopItem};
use crate::order::str_views;
use crate::preview::{item_ids, shown_items};
use crate::text::{chars_of, decimal, push_decimal, push_str, string_of};
use crate::workshop::ItemMeta;
use vstd::prelude::*;

verus! {

/// One file an apply writes: its path under `garrysmod/`, what it held before (`None` when it
/// did not exist) and what it will hold.
#[derive(Clone, Debug)]
pub struct Change {
    pub relative: String,
    pub before: Option<Vec<u8>>,
    pub after: Vec<u8>,
}

/// The file writes of an apply and notes for the user.
#[derive(Clone, Debug)]
pub struct Preview {
    pub changes: Vec<Change>,
    pub notes: Vec<String>,
}

impl Default for Preview {
    fn default() -> (p: Self)
        ensures
            p.changes@.len() == 0,
            p.notes@.len() == 0,
    {
        Preview { changes: Vec::new(), notes: Vec::new() }
    }
}

pub open spec fn bytes_view(o: Option<Vec<u8>>) -> Option<Seq<u8>> {
    match o {
        Some(b) => Some(b@),
        None => None,
    }
}

pub open spec fn change_view(c: Change) -> (Seq<char>, Option<Seq<u8>>, Seq<u8>) {
    (c.relative@, bytes_view(c.before), c.after@)
}

pub open spec fn changes_view(c: Seq<Change>) -> Seq<(Seq<char>, Option<Seq<u8>>, Seq<u8>)> {
    c.map_values(|x: Change| change_view(x))
}

/// Whether two byte strings are equal.
pub fn same_bytes(a: &[u8], b: &[u8]) -> (r: bool)
    ensures
        r == (a@ == b@),
{
    if a.len() != b.len() {
        return false;
    }
    let mut i: usize = 0;
    while i < a.len()
        invariant
            i <= a@.len(),
            a@.len() == b@.len(),
            forall|k: int| 0 <= k < i ==> a@[k] == b@[k],
        decreases a.len() - i,
    {
        if a[i] != b[i] {
            return false;
        }
        i = i + 1;
    }
    assert(a@ =~= b@);
    true
}

/// Records a write of `after` to `relative`, unless the file already holds exactly that.
pub fn add_change(preview: &mut Preview, relative: &str, before: Option<Vec<u8>>, after: Vec<u8>)
    ensures
        final(preview).notes@ == old(preview).notes@,
        changes_view(final(preview).changes@) == (if bytes_view(before) == Some(after@) {
            changes_view(old(preview).changes@)
        } else {
            changes_view(old(preview).changes@).push((relative@, bytes_view(before), after@))
        }),
{
    let same = match &before {
        Some(b) => same_bytes(b.as_slice(), after.as_slice()),
        None => false,
    };
    if !same {
        let ghost start = preview.changes@;
        let ghost entry = (relative@, bytes_view(before), after@);
        let change = Change { relative: relative.to_string(), before, after };
        assert(change_view(change) == entry);
        preview.changes.push(change);
        assert(changes_view(preview.changes@) =~= changes_view(start).push(entry));
    }
}

/// The error of an apply whose preview no longer matches the game folder.
pub open spec fn stale_message(relative: Seq<char>) -> Seq<char> {
    relative + " changed in the meantime. Try again."@
}

/// Checks that a file still holds what the preview saw before it (`current` is `None` when the
/// file does not exist).
pub fn check_current(change: &Change, current: &Option<Vec<u8>>) -> (r: Result<(), String>)
    ensures
        r is Ok <==> bytes_view(*current) == bytes_view(change.before),
        r matches Err(e) ==> e@ == stale_message(change.relative@),
{
    let same = match (current, &change.before) {
        (Some(a), Some(b)) => same_bytes(a.as_slice(), b.as_slice()),
        (None, None) => true,
        _ => false,
    };
    if same {
        Ok(())
    } else {
        let mut m = chars_of(change.relative.as_str());
        push_str(&mut m, " changed in the meantime. Try again.");
        Err(string_of(&m))
    }
}

/// `\` written as `/`, as a backup records a path.
pub open spec fn slashed(p: Seq<char>) -> Seq<char> {
    p.map_values(|c: char| if c == '\\' { '/' } else { c })
}

/// What the backup of an apply records of one file it writes: its path, and whether it existed
/// before. The old content of a file that existed is saved beside the record.
#[derive(Clone, Debug)]
pub struct BackupRecord {
    pub relative: String,
    pub existed: bool,
}

/// The records of a preview's changes, in order.
pub fn backup_records(preview: &Preview) -> (r: Vec<BackupRecord>)
    ensures
        r@.len() == preview.changes@.len(),
        forall|i: int|
            0 <= i < r@.len() ==> (#[trigger] r@[i]).relative@ == slashed(preview.changes@[i].relative@)
                && r@[i].existed == preview.changes@[i].before is Some,
{
    let mut out: Vec<BackupRecord> = Vec::new();
    let mut i: usize = 0;
    while i < preview.changes.len()
        invariant
            i <= preview.changes@.len(),
            out@.len() == i,
            forall|k: int|
                0 <= k < i ==> (#[trigger] out@[k]).relative@ == slashed(preview.changes@[k].relative@)
                    && out@[k].existed == preview.changes@[k].before is Some,
        decreases preview.changes.len() - i,
    {
        let change = &preview.changes[i];
        let path = chars_of(change.relative.as_str());
        let mut fixed: Vec<char> = Vec::new();
        let mut k: usize = 0;
        while k < path.len()
            invariant
                k <= path@.len(),
                fixed@ == slashed(path@.take(k as int)),
            decreases path.len() - k,
        {
            fixed.push(if path[k] == '\\' { '/' } else { path[k] });
            k = k + 1;
            assert(fixed@ =~= slashed(path@.take(k as int)));
        }
        assert(path@.take(path@.len() as int) =~= path@);
        out.push(BackupRecord { relative: string_of(&fixed), existed: change.before.is_some() });
        i = i + 1;
    }
    out
}

/// What a file holds, or `None` when it does not exist.
pub open spec fn file_at(files: Map<Seq<char>, Seq<u8>>, path: Seq<char>) -> Option<Seq<u8>> {
    if files.contains_key(path) {
        Some(files[path])
    } else {
        None
    }
}

/// The game folder's files, by path, after an apply writes each change in order.
pub open spec fn after_apply(files: Map<Seq<char>, Seq<u8>>, changes: Seq<Change>) -> Map<
    Seq<char>,
    Seq<u8>,
>
    decreases changes.len(),
{
    if changes.len() == 0 {
        files
    } else {
        after_apply(files, changes.drop_last()).insert(
            slashed(changes.last().relative@),
            changes.last().after@,
        )
    }
}

/// What an undo does for each record: put the saved content back, or remove a file that did not
/// exist before.
pub open spec fn undo_steps(changes: Seq<Change>) -> Seq<(Seq<char>, Option<Seq<u8>>)> {
    changes.map_values(|c: Change| (slashed(c.relative@), bytes_view(c.before)))
}

/// The files after an undo takes its steps in order.
pub open spec fn after_undo(
    files: Map<Seq<char>, Seq<u8>>,
    steps: Seq<(Seq<char>, Option<Seq<u8>>)>,
) -> Map<Seq<char>, Seq<u8>>
    decreases steps.len(),
{
    if steps.len() == 0 {
        files
    } else {
        let m = after_undo(files, steps.drop_last());
        match steps.last().1 {
            Some(b) => m.insert(steps.last().0, b),
            None => m.remove(steps.last().0),
        }
    }
}

proof fn lemma_undo_other_path(
    files: Map<Seq<char>, Seq<u8>>,
    steps: Seq<(Seq<char>, Option<Seq<u8>>)>,
    k: Seq<char>,
    v: Seq<u8>,
)
    requires
        forall|i: int| 0 <= i < steps.len() ==> (#[trigger] steps[i]).0 != k,
    ensures
        after_undo(files.insert(k, v), steps) == after_undo(files, steps).insert(k, v),
    decreases steps.len(),
{
    if steps.len() > 0 {
        lemma_undo_other_path(files, steps.drop_last(), k, v);
        let m = after_undo(files, steps.drop_last());
        assert(steps.last().0 != k) by {
            assert(steps[steps.len() - 1] == steps.last());
        }
        match steps.last().1 {
            Some(b) => {
                assert(m.insert(k, v).insert(steps.last().0, b) =~= m.insert(steps.last().0, b).insert(k, v));
            },
            None => {
                assert(m.insert(k, v).remove(steps.last().0) =~= m.remove(steps.last().0).insert(k, v));
            },
        }
    }
}

/// Undo puts the game files back: when every change of a preview saw what its file held, and
/// no two changes write the same path, undoing the apply from its backup leaves the files as
/// they were before it.
pub proof fn lemma_undo_restores(files: Map<Seq<char>, Seq<u8>>, changes: Seq<Change>)
    requires
        forall|i: int|
            0 <= i < changes.len() ==> bytes_view((#[trigger] changes[i]).before) == file_at(
                files,
                slashed(changes[i].relative@),
            ),
        forall|i: int, j: int|
            0 <= i < j < changes.len() ==> slashed((#[trigger] changes[i]).relative@) != slashed(
                (#[trigger] changes[j]).relative@,
            ),
    ensures
        after_undo(after_apply(files, changes), undo_steps(changes)) == files,
    decreases changes.len(),
{
    if changes.len() > 0 {
        let rest = changes.drop_last();
        let c = changes.last();
        let k = slashed(c.relative@);
        assert forall|i: int| 0 <= i < rest.len() implies bytes_view((#[trigger] rest[i]).before) == file_at(
            files,
            slashed(rest[i].relative@),
        ) by {
            assert(rest[i] == changes[i]);
        }
        assert forall|i: int, j: int| 0 <= i < j < rest.len() implies slashed((#[trigger] rest[i]).relative@)
            != slashed((#[trigger] rest[j]).relative@) by {
            assert(rest[i] == changes[i] && rest[j] == changes[j]);
        }
        lemma_undo_restores(files, rest);
        let steps = undo_steps(changes);
        let prev = undo_steps(rest);
        assert(steps.drop_last() =~= prev);
        assert forall|i: int| 0 <= i < prev.len() implies (#[trigger] prev[i]).0 != k by {
            assert(prev[i].0 == slashed(changes[i].relative@));
            assert(changes[changes.len() - 1] == c);
        }
        lemma_undo_other_path(after_apply(files, rest), prev, k, c.after@);
        assert(steps.last() == (k, bytes_view(c.before)));
        assert(bytes_view(c.before) == file_at(files, k)) by {
            assert(changes[changes.len() - 1] == c);
        }
        match bytes_view(c.before) {
            Some(b) => {
                assert(files.insert(k, c.after@).insert(k, b) =~= files);
            },
            None => {
                assert(files.insert(k, c.after@).remove(k) =~= files);
            },
        }
    }
}

/// The mods an apply changed, kept with its backup so that an undo can reverse them.
#[derive(Clone, Debug)]
pub struct AddonChanges {
    /// Library mods the apply unpacked that were not unpacked before.
    pub installed: Vec<String>,
    /// Unpacked library mods the apply removed.
    pub removed: Vec<String>,
}

impl Default for AddonChanges {
    fn default() -> (a: Self)
        ensures
            a.installed@.len() == 0,
            a.removed@.len() == 0,
    {
        AddonChanges { installed: Vec::new(), removed: Vec::new() }
    }
}

/// Whether an apply has nothing to do.
pub fn up_to_date(preview: &Preview, addons: &AddonChanges) -> (r: bool)
    ensures
        r == (preview.changes@.len() == 0 && addons.installed@.len() == 0 && addons.removed@.len()
            == 0),
{
    preview.changes.len() == 0 && addons.installed.len() == 0 && addons.removed.len() == 0
}

/// The IDs, in order, that are in `s` (`present`) or not in it (`!present`).
pub open spec fn ids_with(ids: Seq<Seq<char>>, s: Set<Seq<char>>, present: bool) -> Seq<Seq<char>>
    decreases ids.len(),
{
    if ids.len() == 0 {
        seq![]
    } else {
        let rest = ids_with(ids.drop_last(), s, present);
        if s.contains(ids.last()) == present {
            rest.push(ids.last())
        } else {
            rest
        }
    }
}

fn pick_ids<V>(ids: &Vec<String>, unpacked: &IdMap<V>, present: bool) -> (r: Vec<String>)
    requires
        unpacked.wf(),
    ensures
        str_views(r@) == ids_with(str_views(ids@), unpacked@.dom(), present),
{
    let ghost all = str_views(ids@);
    let mut out: Vec<String> = Vec::new();
    let mut i: usize = 0;
    while i < ids.len()
        invariant
            i <= ids@.len(),
            unpacked.wf(),
            all == str_views(ids@),
            str_views(out@) == ids_with(all.take(i as int), unpacked@.dom(), present),
        decreases ids.len() - i,
    {
        assert(all.take(i + 1).drop_last() =~= all.take(i as int));
        assert(all.take(i + 1).last() == ids@[i as int]@);
        if unpacked.contains_key(ids[i].as_str()) == present {
            let ghost before = str_views(out@);
            let id = ids[i].clone();
            out.push(id);
            assert(str_views(out@) =~= before.push(ids@[i as int]@));
        }
        i = i + 1;
    }
    assert(all.take(ids@.len() as int) =~= all);
    out
}

/// The mods an apply records for undo, given the plan it ran and the mods that were unpacked
/// before it: the removed ones that were unpacked, and (with the library on) the unpacked ones
/// that were not.
pub fn addon_changes(plan: &Plan, unpacked: &IdMap<u64>, library_on: bool) -> (r: AddonChanges)
    requires
        unpacked.wf(),
    ensures
        str_views(r.removed@) == ids_with(str_views(plan.uninstall@), unpacked@.dom(), true),
        str_views(r.installed@) == (if library_on {
            ids_with(str_views(plan.install@), unpacked@.dom(), false)
        } else {
            seq![]
        }),
{
    let removed = pick_ids(&plan.uninstall, unpacked, true);
    let installed = if library_on {
        pick_ids(&plan.install, unpacked, false)
    } else {
        let v: Vec<String> = Vec::new();
        assert(str_views(v@) =~= seq![]);
        v
    };
    AddonChanges { installed, removed }
}

/// How a mod is named in progress messages: the title of the preset's first item with that
/// ID, or the ID itself.
pub open spec fn title_for(items: Seq<WorkshopItem>, id: Seq<char>) -> Seq<char>
    decreases items.len(),
{
    if items.len() == 0 {
        id
    } else if items[0].id@ == id {
        match items[0].title {
            Some(t) => t@,
            None => id,
        }
    } else {
        title_for(items.drop_first(), id)
    }
}

pub fn item_title(profile: &Profile, id: &str) -> (r: String)
    ensures
        r@ == title_for(profile.workshop.items@, id@),
{
    let items = &profile.workshop.items;
    let mut i: usize = 0;
    assert(items@.skip(0) =~= items@);
    while i < items.len()
        invariant
            i <= items@.len(),
            items@ == profile.workshop.items@,
            title_for(items@, id@) == title_for(items@.skip(i as int), id@),
        decreases items.len() - i,
    {
        assert(items@.skip(i as int).drop_first() =~= items@.skip(i + 1));
        assert(items@.skip(i as int)[0] == items@[i as int]);
        if crate::text::str_eq(items[i].id.as_str(), id) {
            assert(title_for(items@.skip(i as int), id@) == match items@[i as int].title {
                Some(t) => t@,
                None => id@,
            });
            let name = match &items[i].title {
                Some(t) => t.clone(),
                None => id.to_string(),
            };
            assert(name@ == title_for(items@.skip(i as int), id@));
            return name;
        }
        i = i + 1;
    }
    id.to_string()
}

/// Each mod's last update time, for the mods whose details give one.
pub open spec fn latest_map(meta: Map<Seq<char>, ItemMeta>) -> Map<Seq<char>, u64> {
    Map::new(
        |k: Seq<char>| meta.contains_key(k) && meta[k].time_updated > 0,
        |k: Seq<char>| meta[k].time_updated,
    )
}

pub fn latest_times(meta: &IdMap<ItemMeta>) -> (r: IdMap<u64>)
    requires
        meta.wf(),
    ensures
        r.wf(),
        r@ == latest_map(meta@),
{
    proof {
        meta.lemma_wf();
    }
    let ghost ks = meta.key_seq();
    let mut out: IdMap<u64> = IdMap::new();
    let n = meta.len();
    let mut i: usize = 0;
    assert(out@ =~= Map::new(
        |k: Seq<char>| ks.take(0).contains(k) && meta@[k].time_updated > 0,
        |k: Seq<char>| meta@[k].time_updated,
    ));
    while i < n
        invariant
            n == ks.len(),
            ks == meta.key_seq(),
            meta.wf(),
            out.wf(),
            i <= n,
            out@ == Map::new(
                |k: Seq<char>| ks.take(i as int).contains(k) && meta@[k].time_updated > 0,
                |k: Seq<char>| meta@[k].time_updated,
            ),
        decreases n - i,
    {
        let (k, v) = meta.entry(i);
        let ghost prev = ks.take(i as int);
        let ghost next = ks.take(i + 1);
        assert(next =~= prev.push(ks[i as int]));
        assert forall|x: Seq<char>| next.contains(x) <==> (prev.contains(x) || x == ks[i as int]) by {
            if x == ks[i as int] {
                assert(next[i as int] == x);
            }
            if prev.contains(x) {
                let j = choose|j: int| 0 <= j < prev.len() && prev[j] == x;
                assert(next[j] == x);
            }
            if next.contains(x) && x != ks[i as int] {
                let j = choose|j: int| 0 <= j < next.len() && next[j] == x;
                assert(j < i);
                assert(prev[j] == x);
            }
        }
        if v.time_updated > 0 {
            out.insert(k.clone(), v.time_updated);
        }
        i = i + 1;
        assert(out@ =~= Map::new(
            |x: Seq<char>| ks.take(i as int).contains(x) && meta@[x].time_updated > 0,
            |x: Seq<char>| meta@[x].time_updated,
        ));
    }
    assert(ks.take(n as int) =~= ks);
    assert forall|x: Seq<char>| ks.contains(x) <==> meta@.contains_key(x) by {
        assert(meta@.dom() == ks.to_set());
    }
    assert(out@ =~= latest_map(meta@));
    out
}

pub open spec fn empty_plan(p: Plan) -> bool {
    &&& p.store@.len() == 0
    &&& p.install@.len() == 0
    &&& p.uninstall@.len() == 0
    &&& p.subscribe@.len() == 0
    &&& p.unsubscribe@.len() == 0
}

pub open spec fn entries_of(library: Option<&Library>) -> Map<Seq<char>, LibraryEntry> {
    match library {
        Some(l) => l.entries@,
        None => Map::empty(),
    }
}

/// The library work for a preset: its available mods, planned against the Steam copies, the
/// library (`None` when it is off), the unpacked copies and the mods' update times. A preset
/// that leaves mods alone plans nothing.
pub fn addon_plan(
    profile: &Profile,
    steam: &IdMap<SteamCopy>,
    library: Option<&Library>,
    unpacked: &IdMap<u64>,
    meta: &IdMap<ItemMeta>,
) -> (p: Plan)
    requires
        steam.wf(),
        unpacked.wf(),
        meta.wf(),
        library matches Some(l) ==> l.wf(),
    ensures
        profile.sync.addons ==> plan_spec(
            p,
            item_ids(shown_items(profile.workshop.items@)),
            steam@,
            entries_of(library),
            unpacked@,
            latest_map(meta@),
            library is Some,
        ),
        !profile.sync.addons ==> empty_plan(p),
{
    let latest = latest_times(meta);
    if !profile.sync.addons {
        return Plan {
            store: Vec::new(),
            install: Vec::new(),
            uninstall: Vec::new(),
            subscribe: Vec::new(),
            unsubscribe: Vec::new(),
        };
    }
    let wanted = crate::config::wanted_ids(profile);
    match library {
        Some(l) => plan(&wanted, steam, &l.entries, unpacked, &latest, true),
        None => {
            let empty: IdMap<LibraryEntry> = IdMap::new();
            assert(empty@ =~= entries_of(library));
            plan(&wanted, steam, &empty, unpacked, &latest, false)
        },
    }
}

/// `N mods <text>`, when `N` is not zero.
pub open spec fn count_line(n: nat, text: Seq<char>) -> Seq<Seq<char>> {
    if n > 0 {
        seq![decimal(n) + " mods "@ + text]
    } else {
        seq![]
    }
}

/// How the review lists a file an apply writes: its path and whether it is edited or new.
pub open spec fn change_line(c: Change) -> Seq<char> {
    slashed(c.relative@) + "  ·  "@ + if c.before is Some {
        "edit"@
    } else {
        "new"@
    }
}

/// What the review of an apply shows: how many mods each kind of library work touches, the
/// notes, `Nothing to change.` when there is nothing at all, and the files it writes.
pub open spec fn spec_review(plan: Plan, steam: Set<Seq<char>>, preview: Preview) -> Seq<Seq<char>> {
    let counts = count_line(plan.store@.len(), "compressed into the library"@) + count_line(
        plan.install@.len(),
        "unpacked from the library"@,
    ) + count_line(ids_with(str_views(plan.subscribe@), steam, false).len(), "downloaded by Steam"@)
        + count_line(plan.uninstall@.len(), "removed from GMod (still in library)"@) + count_line(
        plan.unsubscribe@.len(),
        "dropped from Steam (kept in library)"@,
    );
    let head = counts + str_views(preview.notes@);
    let changes = preview.changes@;
    (if head.len() == 0 && changes.len() == 0 {
        seq!["Nothing to change."@]
    } else {
        head
    }) + if changes.len() > 0 {
        seq!["Files"@] + changes.map_values(|c: Change| change_line(c))
    } else {
        seq![]
    }
}

fn push_count(lines: &mut Vec<String>, n: usize, text: &str)
    ensures
        str_views(final(lines)@) == str_views(old(lines)@) + count_line(n as nat, text@),
{
    if n > 0 {
        let mut v: Vec<char> = Vec::new();
        push_decimal(&mut v, n as u64);
        push_str(&mut v, " mods ");
        push_str(&mut v, text);
        let ghost before = str_views(lines@);
        lines.push(string_of(&v));
        assert(str_views(lines@) =~= before + count_line(n as nat, text@));
    } else {
        assert(count_line(n as nat, text@) =~= Seq::<Seq<char>>::empty());
        assert(str_views(lines@) =~= str_views(lines@) + count_line(n as nat, text@));
    }
}

/// The lines of an apply's review.
pub fn review_lines(plan: &Plan, steam: &IdMap<SteamCopy>, preview: &Preview) -> (r: Vec<String>)
    requires
        steam.wf(),
    ensures
        str_views(r@) == spec_review(*plan, steam@.dom(), *preview),
{
    let mut lines: Vec<String> = Vec::new();
    let steam_new = pick_ids(&plan.subscribe, steam, false);
    push_count(&mut lines, plan.store.len(), "compressed into the library");
    push_count(&mut lines, plan.install.len(), "unpacked from the library");
    push_count(&mut lines, steam_new.len(), "downloaded by Steam");
    push_count(&mut lines, plan.uninstall.len(), "removed from GMod (still in library)");
    push_count(&mut lines, plan.unsubscribe.len(), "dropped from Steam (kept in library)");
    let ghost counts = str_views(lines@);
    let mut i: usize = 0;
    while i < preview.notes.len()
        invariant
            i <= preview.notes@.len(),
            str_views(lines@) == counts + str_views(preview.notes@).take(i as int),
        decreases preview.notes.len() - i,
    {
        let ghost before = str_views(lines@);
        let note = preview.notes[i].clone();
        assert(note@ == preview.notes@[i as int]@);
        lines.push(note);
        assert(str_views(lines@) =~= before.push(preview.notes@[i as int]@));
        assert(str_views(preview.notes@).take(i + 1) =~= str_views(preview.notes@).take(i as int).push(
            preview.notes@[i as int]@,
        ));
        i = i + 1;
        assert(str_views(lines@) =~= counts + str_views(preview.notes@).take(i as int));
    }
    assert(str_views(preview.notes@).take(preview.notes@.len() as int) =~= str_views(preview.notes@));
    if lines.len() == 0 && preview.changes.len() == 0 {
        lines.push("Nothing to change.".to_string());
        assert(str_views(lines@) =~= seq!["Nothing to change."@]);
    }
    let ghost head = str_views(lines@);
    if preview.changes.len() > 0 {
        lines.push("Files".to_string());
        let ghost with_title = str_views(lines@);
        assert(with_title =~= head + seq!["Files"@]);
        let mut k: usize = 0;
        while k < preview.changes.len()
            invariant
                k <= preview.changes@.len(),
                str_views(lines@) == with_title + preview.changes@.take(k as int).map_values(
                    |c: Change| change_line(c),
                ),
            decreases preview.changes.len() - k,
        {
            let c = &preview.changes[k];
            let path = chars_of(c.relative.as_str());
            let mut v: Vec<char> = Vec::new();
            let mut j: usize = 0;
            while j < path.len()
                invariant
                    j <= path@.len(),
                    v@ == slashed(path@.take(j as int)),
                decreases path.len() - j,
            {
                v.push(if path[j] == '\\' { '/' } else { path[j] });
                j = j + 1;
                assert(v@ =~= slashed(path@.take(j as int)));
            }
            assert(path@.take(path@.len() as int) =~= path@);
            push_str(&mut v, "  ·  ");
            if c.before.is_some() {
                push_str(&mut v, "edit");
            } else {
                push_str(&mut v, "new");
            }
            let ghost before = str_views(lines@);
            let line = string_of(&v);
            lines.push(line);
            assert(str_views(lines@) =~= before.push(v@));
            assert(v@ == change_line(preview.changes@[k as int]));
            assert(preview.changes@.take(k + 1).map_values(|c: Change| change_line(c)) =~= preview.changes@.take(
                k as int,
            ).map_values(|c: Change| change_line(c)).push(change_line(preview.changes@[k as int])));
            k = k + 1;
        }
        assert(preview.changes@.take(preview.changes@.len() as int) =~= preview.changes@);
    } else {
        assert(str_views(lines@) =~= head + Seq::<Seq<char>>::empty());
    }
    lines
}

} // verus!
