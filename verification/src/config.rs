//! The config files an apply writes: the Workshop bridge in GMod's menu, the disabled-mods list,
//! the managed block in `autoexec.cfg`, `gmm_active.cfg` and the mapped files.

use crate::json::{field, Json};
use crate::library::Plan;
use crate::model::{bind_active, mapping_active, setting_active, Bind, FileMapping, Profile, Setting};
use crate::order::str_views;
use crate::preview::{
    item_ids, shown_items, spec_menu_script, spec_without_managed_block, trim_newlines_start,
    without_managed_block, workshop_menu_script,
};
use crate::text::{
    chars_of, copy_chars, decimal, find, find_from, index_of, is_digit, lemma_find_from, lemma_index_of,
    lemma_index_of_at, lemma_index_of_none, lines, lines_of, occurs_at, push_all, push_decimal,
    push_str, split, string_of, strip_cr,
};
use crate::validate::{checked_mapping, profile_sound, spec_checked_mapping, string_result};
use vstd::prelude::*;

verus! {

pub const BEGIN: &'static str = "// GMM MANAGED BEGIN";

pub const END: &'static str = "// GMM MANAGED END";

pub const MENU_BEGIN: &'static str = "-- GMM WORKSHOP BEGIN";

pub const MENU_END: &'static str = "-- GMM WORKSHOP END";

pub const CFG_HEADER: &'static str = "// Generated by GMod Manager. Edit the profile in the manager.\n";

pub open spec fn ends_nl(s: Seq<char>) -> bool {
    s.len() > 0 && s.last() == '\n'
}

fn ends_with_newline(s: &[char]) -> (r: bool)
    ensures
        r == ends_nl(s@),
{
    s.len() > 0 && s[s.len() - 1] == '\n'
}

/// An apply manages the preset's Workshop items when addons are synced and there is something to
/// subscribe to or to drop.
pub open spec fn manages_addons(p: Profile, plan: Plan) -> bool {
    p.sync.addons && (p.workshop.items@.len() > 0 || plan.unsubscribe@.len() > 0)
}

pub fn manage_addons(profile: &Profile, plan: &Plan) -> (r: bool)
    ensures
        r == manages_addons(*profile, *plan),
{
    profile.sync.addons && (profile.workshop.items.len() > 0 || plan.unsubscribe.len() > 0)
}

/// The name a preset goes by in GMod's addon presets.
pub open spec fn preset_title(name: Seq<char>) -> Seq<char> {
    "GMM · "@ + name
}

pub open spec fn member_keys(f: Seq<(String, Json)>) -> Seq<Seq<char>> {
    f.map_values(|m: (String, Json)| m.0@)
}

/// GMod's addon preset entry: the preset's title, the mods it enables, none disabled, and no
/// action for new mods; members in key order.
pub open spec fn is_preset_entry(j: Json, title: Seq<char>, enabled: Seq<Seq<char>>) -> bool {
    &&& j matches Json::Object(f) && member_keys(f@) == seq!["disabled"@, "enabled"@, "name"@, "newAction"@]
    &&& j.at("disabled"@).array_of() == Some(Seq::<Json>::empty())
    &&& j.at("enabled"@).array_of() matches Some(a) && a.len() == enabled.len() && (forall|i: int|
        0 <= i < a.len() ==> #[trigger] a[i].str_of() == Some(enabled[i]))
    &&& j.at("name"@).str_of() == Some(title)
    &&& j.at("newAction"@).str_of() == Some(Seq::<char>::empty())
}

/// The member of `settings/addonpresets.txt` an apply sets for the preset: its title and entry.
pub fn addon_preset(profile_name: &str, enabled: &Vec<String>) -> (r: (String, Json))
    ensures
        r.0@ == preset_title(profile_name@),
        is_preset_entry(r.1, r.0@, str_views(enabled@)),
{
    let mut t: Vec<char> = Vec::new();
    push_str(&mut t, "GMM · ");
    push_str(&mut t, profile_name);
    let title = string_of(&t);
    let mut ids: Vec<Json> = Vec::new();
    let mut i: usize = 0;
    while i < enabled.len()
        invariant
            i <= enabled@.len(),
            ids@.len() == i,
            forall|k: int| 0 <= k < i ==> #[trigger] ids@[k].str_of() == Some(enabled@[k]@),
        decreases enabled.len() - i,
    {
        let id = enabled[i].clone();
        assert(id@ == enabled@[i as int]@);
        ids.push(Json::Str(id));
        i = i + 1;
    }
    let ghost idv = ids@;
    let name = title.clone();
    assert(name@ == title@);
    let mut f: Vec<(String, Json)> = Vec::new();
    f.push(("disabled".to_string(), Json::Array(Vec::new())));
    f.push(("enabled".to_string(), Json::Array(ids)));
    f.push(("name".to_string(), Json::Str(name)));
    f.push(("newAction".to_string(), Json::Str(String::new())));
    proof {
        reveal_strlit("disabled");
        reveal_strlit("enabled");
        reveal_strlit("name");
        reveal_strlit("newAction");
        assert(member_keys(f@) =~= seq!["disabled"@, "enabled"@, "name"@, "newAction"@]);
        let k0 = "disabled"@;
        let k1 = "enabled"@;
        let k2 = "name"@;
        let k3 = "newAction"@;
        assert(k0 != k1 && k0 != k2 && k0 != k3 && k1 != k2 && k1 != k3 && k2 != k3) by {
            assert(k0[0] != k1[0] && k0[0] != k2[0] && k0[0] != k3[0] && k1[0] != k2[0]
                && k1[0] != k3[0]);
            assert(k2.len() != k3.len());
        }
        let fs = f@;
        let d1 = fs.drop_first();
        let d2 = d1.drop_first();
        let d3 = d2.drop_first();
        assert(d1[0] == fs[1] && d2[0] == fs[2] && d3[0] == fs[3]);
        assert(field(d3, k3) == Some(fs[3].1));
        assert(field(d2, k3) == Some(fs[3].1));
        assert(field(d1, k3) == Some(fs[3].1));
        assert(field(fs, k3) == Some(fs[3].1));
        assert(field(d2, k2) == Some(fs[2].1));
        assert(field(d1, k2) == Some(fs[2].1));
        assert(field(fs, k2) == Some(fs[2].1));
        assert(field(d1, k1) == Some(fs[1].1));
        assert(field(fs, k1) == Some(fs[1].1));
        assert(field(fs, k0) == Some(fs[0].1));
        assert(fs[1].1 == Json::Array(ids));
        assert(ids@ == idv);
    }
    (title, Json::Object(f))
}

/// Replacing the first member named `key` leaves every other name's value as it was.
proof fn lemma_field_update(f: Seq<(String, Json)>, i: int, m: (String, Json))
    requires
        0 <= i < f.len(),
        f[i].0@ == m.0@,
        forall|j: int| 0 <= j < i ==> f[j].0@ != m.0@,
    ensures
        forall|k: Seq<char>|
            #![trigger field(f.update(i, m), k)]
            field(f.update(i, m), k) == if k == m.0@ {
                Some(m.1)
            } else {
                field(f, k)
            },
    decreases f.len(),
{
    let g = f.update(i, m);
    if i > 0 {
        assert(g.drop_first() =~= f.drop_first().update(i - 1, m));
        lemma_field_update(f.drop_first(), i - 1, m);
        assert forall|k: Seq<char>| #[trigger]
            field(g, k) == (if k == m.0@ {
                Some(m.1)
            } else {
                field(f, k)
            }) by {
            assert(g[0] == f[0]);
            assert(field(f.drop_first().update(i - 1, m), k) == (if k == m.0@ {
                Some(m.1)
            } else {
                field(f.drop_first(), k)
            }));
        }
    } else {
        assert forall|k: Seq<char>| k != m.0@ implies #[trigger] field(g, k) == field(f, k) by {
            assert(g.drop_first() =~= f.drop_first());
        }
    }
}

/// Adding a member under a new name leaves every other name's value as it was.
proof fn lemma_field_push(f: Seq<(String, Json)>, m: (String, Json))
    requires
        forall|j: int| 0 <= j < f.len() ==> f[j].0@ != m.0@,
    ensures
        forall|k: Seq<char>|
            #![trigger field(f.push(m), k)]
            field(f.push(m), k) == if k == m.0@ {
                Some(m.1)
            } else {
                field(f, k)
            },
    decreases f.len(),
{
    let g = f.push(m);
    if f.len() > 0 {
        assert(g.drop_first() =~= f.drop_first().push(m));
        lemma_field_push(f.drop_first(), m);
        assert forall|k: Seq<char>| #[trigger]
            field(g, k) == (if k == m.0@ {
                Some(m.1)
            } else {
                field(f, k)
            }) by {
            assert(g[0] == f[0]);
            assert(field(f.drop_first().push(m), k) == (if k == m.0@ {
                Some(m.1)
            } else {
                field(f.drop_first(), k)
            }));
        }
    } else {
        assert forall|k: Seq<char>| #[trigger]
            field(g, k) == (if k == m.0@ {
                Some(m.1)
            } else {
                field(f, k)
            }) by {
            assert(g.drop_first() =~= Seq::<(String, Json)>::empty());
            assert(field(g.drop_first(), k) == None::<Json>);
            assert(field(f, k) == None::<Json>);
            assert(g[0] == m);
        }
    }
}

/// `after` is `before` with the preset entry for `title` and `enabled` set: every other name keeps
/// its value, the title names such an entry, and the names are those of `before`, with the title
/// added at the end when it was not among them.
pub open spec fn merged_into(
    before: Seq<(String, Json)>,
    after: Seq<(String, Json)>,
    title: Seq<char>,
    enabled: Seq<Seq<char>>,
) -> bool {
    &&& forall|k: Seq<char>| k != title ==> #[trigger] field(after, k) == field(before, k)
    &&& field(after, title) matches Some(e) && is_preset_entry(e, title, enabled)
    &&& member_keys(after) == if member_keys(before).contains(title) {
        member_keys(before)
    } else {
        member_keys(before).push(title)
    }
}

/// Merging the preset again into what a merge gave changes neither the names nor any other
/// preset, and the preset's entry keeps its shape.
pub proof fn lemma_merge_again(
    existing: Seq<(String, Json)>,
    merged: Seq<(String, Json)>,
    again: Seq<(String, Json)>,
    title: Seq<char>,
    enabled: Seq<Seq<char>>,
)
    requires
        merged_into(existing, merged, title, enabled),
        merged_into(merged, again, title, enabled),
    ensures
        member_keys(again) == member_keys(merged),
        forall|k: Seq<char>| k != title ==> #[trigger] field(again, k) == field(merged, k),
        field(again, title) matches Some(e) && is_preset_entry(e, title, enabled),
{
    let before = member_keys(existing);
    if !before.contains(title) {
        assert(member_keys(merged)[before.len() as int] == title);
    }
    assert(member_keys(merged).contains(title));
}

/// `settings/addonpresets.txt`'s members with the preset's entry set: the member under its
/// title is replaced in place, or added at the end when there is none. Every other preset keeps
/// its value.
pub fn merge_addon_preset(existing: Vec<(String, Json)>, name: &str, subscribe: &Vec<String>) -> (r:
    Vec<(String, Json)>)
    ensures
        merged_into(existing@, r@, preset_title(name@), str_views(subscribe@)),
{
    let (title, entry) = addon_preset(name, subscribe);
    let ghost member = (title, entry);
    let mut members = existing;
    let mut i: usize = 0;
    while i < members.len()
        invariant
            members@ == existing@,
            i <= members@.len(),
            forall|j: int| 0 <= j < i ==> members@[j].0@ != title@,
        ensures
            i <= members@.len(),
            forall|j: int| 0 <= j < i ==> members@[j].0@ != title@,
            i < members@.len() ==> members@[i as int].0@ == title@,
        decreases members.len() - i,
    {
        if crate::text::str_eq(members[i].0.as_str(), title.as_str()) {
            break;
        }
        i = i + 1;
    }
    let ghost keys = member_keys(existing@);
    if i < members.len() {
        proof {
            lemma_field_update(existing@, i as int, member);
            assert(keys[i as int] == title@);
        }
        members.set(i, (title, entry));
        assert(member_keys(members@) =~= keys);
    } else {
        proof {
            lemma_field_push(existing@, member);
            assert(!keys.contains(title@));
        }
        members.push((title, entry));
        assert(member_keys(members@) =~= keys.push(title@));
    }
    members
}

pub const PRESETS_UNREADABLE: &'static str = "Existing addon presets could not be parsed: ";

/// The members `settings/addonpresets.txt` starts from: none when the file is missing, else
/// what its bytes parse to as a JSON object.
pub open spec fn existing_members(existing: Option<Seq<u8>>) -> Result<Seq<(String, Json)>, Seq<char>> {
    match existing {
        None => Ok(seq![]),
        Some(b) => crate::json::json_members(b),
    }
}

pub open spec fn bytes_of(existing: Option<&[u8]>) -> Option<Seq<u8>> {
    match existing {
        None => None,
        Some(b) => Some(b@),
    }
}

/// The new text of `settings/addonpresets.txt`: the existing presets (`None` when the file is
/// missing) with the preset's entry merged in, printed as pretty JSON with a final line break.
/// A file that is no JSON object is refused with the parser's error.
pub fn addon_presets_text(existing: Option<&[u8]>, name: &str, subscribe: &Vec<String>) -> (r:
    Result<Vec<u8>, String>)
    ensures
        existing_members(bytes_of(existing)) matches Err(e) ==> (r matches Err(m) && m@
            == PRESETS_UNREADABLE@ + e),
        existing_members(bytes_of(existing)) matches Ok(base) ==> exists|merged: Vec<(String, Json)>|
            #[trigger] merged_into(base, merged@, preset_title(name@), str_views(subscribe@))
                && match crate::json::json_pretty(Json::Object(merged)) {
                Err(e) => r matches Err(m) && m@ == e,
                Ok(text) => r matches Ok(out) && out@ == text.push(0x0au8),
            },
{
    let members = match existing {
        None => Vec::new(),
        Some(b) => match crate::json::parse_json_members(b) {
            Err(e) => {
                let mut m = chars_of(PRESETS_UNREADABLE);
                push_str(&mut m, e.as_str());
                return Err(string_of(&m));
            },
            Ok(m) => m,
        },
    };
    assert(existing_members(bytes_of(existing)) == Ok::<_, Seq<char>>(members@));
    let merged = merge_addon_preset(members, name, subscribe);
    let ghost kept = merged;
    let value = Json::Object(merged);
    let printed = crate::json::pretty_json(&value);
    assert(merged_into(members@, kept@, preset_title(name@), str_views(subscribe@)));
    assert(value == Json::Object(kept));
    let r = match printed {
        Err(e) => Err(e),
        Ok(t) => {
            let mut out = t;
            out.push(0x0au8);
            Ok(out)
        },
    };
    assert(match crate::json::json_pretty(Json::Object(kept)) {
        Err(e) => r matches Err(m) && m@ == e,
        Ok(text) => r matches Ok(out) && out@ == text.push(0x0au8),
    });
    assert(merged_into(
        existing_members(bytes_of(existing))->Ok_0,
        kept@,
        preset_title(name@),
        str_views(subscribe@),
    ));
    r
}

pub open spec fn bind_line(b: Bind) -> Seq<char> {
    "bind \""@ + b.key@ + "\" \""@ + b.command@ + "\"\n"@
}

pub open spec fn setting_line(s: Setting) -> Seq<char> {
    s.name@ + " \""@ + s.value@ + "\"\n"@
}

/// The lines of the active binds, in order.
pub open spec fn bind_lines(b: Seq<Bind>) -> Seq<char>
    decreases b.len(),
{
    if b.len() == 0 {
        seq![]
    } else if bind_active(b.last()) {
        bind_lines(b.drop_last()) + bind_line(b.last())
    } else {
        bind_lines(b.drop_last())
    }
}

pub open spec fn bind_count(b: Seq<Bind>) -> nat
    decreases b.len(),
{
    if b.len() == 0 {
        0
    } else if bind_active(b.last()) {
        bind_count(b.drop_last()) + 1
    } else {
        bind_count(b.drop_last())
    }
}

/// The lines of the active settings, in order.
pub open spec fn setting_lines(s: Seq<Setting>) -> Seq<char>
    decreases s.len(),
{
    if s.len() == 0 {
        seq![]
    } else if setting_active(s.last()) {
        setting_lines(s.drop_last()) + setting_line(s.last())
    } else {
        setting_lines(s.drop_last())
    }
}

pub open spec fn setting_count(s: Seq<Setting>) -> nat
    decreases s.len(),
{
    if s.len() == 0 {
        0
    } else if setting_active(s.last()) {
        setting_count(s.drop_last()) + 1
    } else {
        setting_count(s.drop_last())
    }
}

/// `gmm_active.cfg`: the header, then the synced binds and settings.
pub open spec fn cfg_text(p: Profile) -> Seq<char> {
    CFG_HEADER@ + (if p.sync.binds {
        bind_lines(p.binds@)
    } else {
        seq![]
    }) + (if p.sync.settings {
        setting_lines(p.convars@)
    } else {
        seq![]
    })
}

/// How many commands `gmm_active.cfg` holds.
pub open spec fn command_count(p: Profile) -> nat {
    (if p.sync.binds {
        bind_count(p.binds@)
    } else {
        0
    }) + (if p.sync.settings {
        setting_count(p.convars@)
    } else {
        0
    })
}

fn push_binds(out: &mut Vec<char>, binds: &Vec<Bind>) -> (n: usize)
    ensures
        final(out)@ == old(out)@ + bind_lines(binds@),
        n == bind_count(binds@),
        n <= binds@.len(),
{
    let ghost start = out@;
    let mut n: usize = 0;
    let mut i: usize = 0;
    while i < binds.len()
        invariant
            i <= binds@.len(),
            out@ == start + bind_lines(binds@.take(i as int)),
            n == bind_count(binds@.take(i as int)),
            n <= i,
        decreases binds.len() - i,
    {
        assert(binds@.take(i + 1).drop_last() =~= binds@.take(i as int));
        let b = &binds[i];
        if b.active() {
            let ghost before = out@;
            push_str(out, "bind \"");
            push_str(out, b.key.as_str());
            push_str(out, "\" \"");
            push_str(out, b.command.as_str());
            push_str(out, "\"\n");
            assert(out@ =~= before + bind_line(*b));
            n = n + 1;
        }
        i = i + 1;
    }
    assert(binds@.take(i as int) =~= binds@);
    n
}

fn push_settings(out: &mut Vec<char>, settings: &Vec<Setting>) -> (n: usize)
    ensures
        final(out)@ == old(out)@ + setting_lines(settings@),
        n == setting_count(settings@),
        n <= settings@.len(),
{
    let ghost start = out@;
    let mut n: usize = 0;
    let mut i: usize = 0;
    while i < settings.len()
        invariant
            i <= settings@.len(),
            out@ == start + setting_lines(settings@.take(i as int)),
            n == setting_count(settings@.take(i as int)),
            n <= i,
        decreases settings.len() - i,
    {
        assert(settings@.take(i + 1).drop_last() =~= settings@.take(i as int));
        let s = &settings[i];
        if s.active() {
            let ghost before = out@;
            push_str(out, s.name.as_str());
            push_str(out, " \"");
            push_str(out, s.value.as_str());
            push_str(out, "\"\n");
            assert(out@ =~= before + setting_line(*s));
            n = n + 1;
        }
        i = i + 1;
    }
    assert(settings@.take(i as int) =~= settings@);
    n
}

/// The text of `gmm_active.cfg` and whether it holds any command.
pub fn active_config(profile: &Profile) -> (r: (String, bool))
    ensures
        r.0@ == cfg_text(*profile),
        r.1 == (command_count(*profile) > 0),
{
    let mut out: Vec<char> = Vec::new();
    push_str(&mut out, CFG_HEADER);
    let mut any = false;
    if profile.sync.binds {
        let n = push_binds(&mut out, &profile.binds);
        any = n > 0;
    }
    if profile.sync.settings {
        let k = push_settings(&mut out, &profile.convars);
        any = any || k > 0;
    }
    (string_of(&out), any)
}

/// The line of the managed block in `autoexec.cfg`.
pub const AUTOEXEC_LINE: &'static str = "exec gmm_active.cfg";

pub open spec fn autoexec_block() -> Seq<char> {
    block(BEGIN@, AUTOEXEC_LINE@, END@)
}

/// `autoexec.cfg` after an apply: the old managed block removed, and a block that runs
/// `gmm_active.cfg` appended when there are commands.
pub open spec fn spec_next_autoexec(current: Seq<char>, commands: nat) -> Result<
    Seq<char>,
    Seq<char>,
> {
    match spec_without_managed_block(current, BEGIN@, END@) {
        Err(e) => Err(e),
        Ok(base) => Ok(
            if commands > 0 {
                (if base.len() > 0 && !ends_nl(base) {
                    base.push('\n')
                } else {
                    base
                }) + autoexec_block()
            } else {
                base
            },
        ),
    }
}

/// The line of the bridge block in `menu.lua`.
pub const MENU_LINE: &'static str = "include( \"gmm_workshop.lua\" )";

pub open spec fn menu_block() -> Seq<char> {
    block(MENU_BEGIN@, MENU_LINE@, MENU_END@)
}

/// `menu.lua` with the bridge block at its end, on a line of its own.
pub open spec fn spec_menu_with_block(base: Seq<char>) -> Seq<char> {
    (if !ends_nl(base) {
        base.push('\n')
    } else {
        base
    }) + menu_block()
}

/// The pieces of `s` between characters that are not ASCII digits (`str::split` with that
/// predicate), empty pieces included.
pub open spec fn digit_tokens(s: Seq<char>) -> Seq<Seq<char>>
    decreases s.len(),
{
    if s.len() == 0 {
        seq![seq![]]
    } else {
        let t = digit_tokens(s.drop_last());
        if is_digit(s.last()) {
            t.update(t.len() - 1, t.last().push(s.last()))
        } else {
            t.push(seq![])
        }
    }
}

pub proof fn lemma_digit_tokens_nonempty(s: Seq<char>)
    ensures
        digit_tokens(s).len() >= 1,
    decreases s.len(),
{
    if s.len() > 0 {
        lemma_digit_tokens_nonempty(s.drop_last());
    }
}

/// A line of `addonnomount.txt` names a wanted item when one of its digit runs is its ID.
pub open spec fn line_names(line: Seq<char>, wanted: Seq<Seq<char>>) -> bool {
    exists|k: int| 0 <= k < digit_tokens(line).len() && wanted.contains(#[trigger] digit_tokens(line)[k])
}

pub open spec fn kept_lines(ls: Seq<Seq<char>>, wanted: Seq<Seq<char>>) -> Seq<Seq<char>>
    decreases ls.len(),
{
    if ls.len() == 0 {
        seq![]
    } else if line_names(ls.last(), wanted) {
        kept_lines(ls.drop_last(), wanted)
    } else {
        kept_lines(ls.drop_last(), wanted).push(ls.last())
    }
}

pub open spec fn removed_count(ls: Seq<Seq<char>>, wanted: Seq<Seq<char>>) -> nat
    decreases ls.len(),
{
    if ls.len() == 0 {
        0
    } else if line_names(ls.last(), wanted) {
        removed_count(ls.drop_last(), wanted) + 1
    } else {
        removed_count(ls.drop_last(), wanted)
    }
}

/// The lines joined with `\n`.
pub open spec fn join_lines(ls: Seq<Seq<char>>) -> Seq<char>
    decreases ls.len(),
{
    if ls.len() == 0 {
        seq![]
    } else if ls.len() == 1 {
        ls[0]
    } else {
        join_lines(ls.drop_last()) + seq!['\n'] + ls.last()
    }
}

/// `addonnomount.txt` without the lines that name a wanted item; a final line break is kept
/// when some line is.
pub open spec fn nomount_output(text: Seq<char>, wanted: Seq<Seq<char>>) -> Seq<char> {
    let kept = kept_lines(lines(text), wanted);
    join_lines(kept) + (if ends_nl(text) && kept.len() > 0 {
        seq!['\n']
    } else {
        seq![]
    })
}

pub open spec fn disabled_note(removed: nat) -> Seq<char> {
    "Turns "@ + decimal(removed) + " disabled mods back on."@
}

fn digit_tokens_of(s: &[char]) -> (r: Vec<Vec<char>>)
    ensures
        r@.map_values(|t: Vec<char>| t@) == digit_tokens(s@),
{
    let mut r: Vec<Vec<char>> = Vec::new();
    let mut cur: Vec<char> = Vec::new();
    let mut i: usize = 0;
    while i < s.len()
        invariant
            i <= s.len(),
            r@.map_values(|t: Vec<char>| t@).push(cur@) == digit_tokens(s@.take(i as int)),
        decreases s.len() - i,
    {
        let ghost before = r@.map_values(|t: Vec<char>| t@).push(cur@);
        assert(s@.take(i + 1).drop_last() =~= s@.take(i as int));
        if '0' <= s[i] && s[i] <= '9' {
            cur.push(s[i]);
            assert(r@.map_values(|t: Vec<char>| t@).push(cur@) =~= before.update(
                before.len() - 1,
                before.last().push(s@[i as int]),
            ));
        } else {
            let done = cur;
            r.push(done);
            cur = Vec::new();
            assert(r@.map_values(|t: Vec<char>| t@).push(cur@) =~= before.push(seq![]));
        }
        i = i + 1;
    }
    assert(s@.take(i as int) =~= s@);
    let ghost before = r@.map_values(|t: Vec<char>| t@);
    r.push(cur);
    assert(r@.map_values(|t: Vec<char>| t@) =~= before.push(cur@));
    r
}

fn contains_chars_str(v: &Vec<String>, x: &[char]) -> (r: bool)
    ensures
        r == str_views(v@).contains(x@),
{
    let s = string_of(x);
    crate::library::contains_str(v, s.as_str())
}

fn names_wanted(line: &[char], wanted: &Vec<String>) -> (r: bool)
    ensures
        r == line_names(line@, str_views(wanted@)),
{
    let tokens = digit_tokens_of(line);
    let ghost t = digit_tokens(line@);
    let mut k: usize = 0;
    while k < tokens.len()
        invariant
            k <= tokens@.len(),
            tokens@.map_values(|x: Vec<char>| x@) == t,
            t.len() == tokens@.len(),
            t == digit_tokens(line@),
            forall|j: int| 0 <= j < k ==> !str_views(wanted@).contains(#[trigger] t[j]),
        decreases tokens.len() - k,
    {
        assert(tokens@[k as int]@ == t[k as int]);
        if contains_chars_str(wanted, &tokens[k]) {
            assert(str_views(wanted@).contains(digit_tokens(line@)[k as int]));
            return true;
        }
        k = k + 1;
    }
    false
}

/// The new `addonnomount.txt` and how many lines it drops.
pub fn filter_nomount(text: &str, wanted: &Vec<String>) -> (r: (String, usize))
    ensures
        r.0@ == nomount_output(text@, str_views(wanted@)),
        r.1 == removed_count(lines(text@), str_views(wanted@)),
{
    let t = chars_of(text);
    let ls = lines_of(&t);
    let ghost lv = lines(text@);
    let ghost w = str_views(wanted@);
    let mut out: Vec<char> = Vec::new();
    let mut kept: usize = 0;
    let mut removed: usize = 0;
    let mut i: usize = 0;
    while i < ls.len()
        invariant
            i <= ls@.len(),
            ls@.map_values(|p: Vec<char>| p@) == lv,
            w == str_views(wanted@),
            out@ == join_lines(kept_lines(lv.take(i as int), w)),
            kept == kept_lines(lv.take(i as int), w).len(),
            removed == removed_count(lv.take(i as int), w),
            kept + removed == i,
        decreases ls.len() - i,
    {
        assert(lv.take(i + 1).drop_last() =~= lv.take(i as int));
        assert(ls@[i as int]@ == lv[i as int]);
        if names_wanted(&ls[i], wanted) {
            removed = removed + 1;
        } else {
            let ghost before = kept_lines(lv.take(i as int), w);
            if kept > 0 {
                out.push('\n');
            }
            push_all(&mut out, &ls[i]);
            assert(before.push(lv[i as int]).drop_last() =~= before);
            if kept == 0 {
                assert(out@ =~= join_lines(before.push(lv[i as int])));
            }
            kept = kept + 1;
        }
        i = i + 1;
    }
    assert(lv.take(i as int) =~= lv);
    if ends_with_newline(&t) && kept > 0 {
        out.push('\n');
    }
    (string_of(&out), removed)
}

/// A file an apply writes: where (relative to the `garrysmod` folder) and what.
#[derive(Clone, Debug)]
pub struct ConfigWrite {
    pub relative: String,
    pub content: String,
}

/// The config files an apply writes, in order, and notes for the user.
#[derive(Clone, Debug)]
pub struct ConfigPlan {
    pub writes: Vec<ConfigWrite>,
    pub notes: Vec<String>,
}

/// What the config preview reads from the game folder.
#[derive(Clone, Debug)]
pub struct ConfigFiles {
    /// `lua/menu/menu.lua`, when it is a file.
    pub menu: Option<String>,
    /// How the path of `lua/menu/menu.lua` is shown in messages.
    pub menu_path: String,
    /// `cfg/addonnomount.txt`, when it can be read.
    pub nomount: Option<String>,
    /// `cfg/autoexec.cfg`; empty when it does not exist.
    pub autoexec: String,
}

pub open spec fn writes_view(w: Seq<ConfigWrite>) -> Seq<(Seq<char>, Seq<char>)> {
    w.map_values(|x: ConfigWrite| (x.relative@, x.content@))
}

pub open spec fn opt_view(o: Option<String>) -> Option<Seq<char>> {
    match o {
        Some(s) => Some(s@),
        None => None,
    }
}

/// The writes and notes for the Workshop side of an apply.
pub open spec fn addon_part(
    p: Profile,
    plan: Plan,
    menu: Option<Seq<char>>,
    menu_path: Seq<char>,
    nomount: Option<Seq<char>>,
    script: Seq<char>,
) -> Result<(Seq<(Seq<char>, Seq<char>)>, Seq<Seq<char>>), Seq<char>> {
    if !manages_addons(p, plan) {
        match menu {
            None => Ok((seq![], seq![])),
            Some(m) => match spec_without_managed_block(m, MENU_BEGIN@, MENU_END@) {
                Err(e) => Err(e),
                Ok(n) => Ok(
                    (
                        if n != m {
                            seq![("lua/menu/menu.lua"@, n)]
                        } else {
                            seq![]
                        },
                        seq![],
                    ),
                ),
            },
        }
    } else {
        match menu {
            None => Err("GMod menu script was not found: "@ + menu_path),
            Some(m) => match spec_without_managed_block(m, MENU_BEGIN@, MENU_END@) {
                Err(e) => Err(e),
                Ok(n) => {
                    let next = spec_menu_with_block(n);
                    let w = seq![("lua/menu/gmm_workshop.lua"@, script)] + (if next != m {
                        seq![("lua/menu/menu.lua"@, next)]
                    } else {
                        seq![]
                    });
                    let wanted = item_ids(shown_items(p.workshop.items@));
                    match nomount {
                        Some(text) if removed_count(lines(text), wanted) > 0 => Ok(
                            (
                                w.push(("cfg/addonnomount.txt"@, nomount_output(text, wanted))),
                                seq![disabled_note(removed_count(lines(text), wanted))],
                            ),
                        ),
                        _ => Ok((w, seq![])),
                    }
                },
            },
        }
    }
}

/// The writes for `gmm_active.cfg` and `autoexec.cfg`.
pub open spec fn settings_part(p: Profile, autoexec: Seq<char>) -> Result<
    Seq<(Seq<char>, Seq<char>)>,
    Seq<char>,
> {
    match spec_next_autoexec(autoexec, command_count(p)) {
        Err(e) => Err(e),
        Ok(next) => Ok(
            (if command_count(p) > 0 {
                seq![("cfg/gmm_active.cfg"@, cfg_text(p))]
            } else {
                seq![]
            }) + (if next != autoexec {
                seq![("cfg/autoexec.cfg"@, next)]
            } else {
                seq![]
            }),
        ),
    }
}

/// The writes of the active mapped files, or the error of the first whose path is refused.
pub open spec fn mapping_writes(m: Seq<FileMapping>) -> Result<Seq<(Seq<char>, Seq<char>)>, Seq<char>>
    decreases m.len(),
{
    if m.len() == 0 {
        Ok(seq![])
    } else if !mapping_active(m[0]) {
        mapping_writes(m.drop_first())
    } else {
        match spec_checked_mapping(m[0].path@) {
            Err(e) => Err(e),
            Ok(rel) => match mapping_writes(m.drop_first()) {
                Err(e) => Err(e),
                Ok(rest) => Ok(seq![(rel, m[0].content@)] + rest),
            },
        }
    }
}

/// The notes about synced lists that are empty.
pub open spec fn empty_notes(p: Profile) -> Seq<Seq<char>> {
    (if p.sync.binds && p.binds@.len() == 0 {
        seq!["Binds are on, but the list is empty."@]
    } else {
        seq![]
    }) + (if p.sync.settings && p.convars@.len() == 0 && p.file_mappings@.len() == 0 {
        seq!["Settings are on, but the list is empty."@]
    } else {
        seq![]
    })
}

/// Everything the config preview writes for a preset, in order, with its notes; or the first
/// error.
pub open spec fn spec_config_plan(
    p: Profile,
    plan: Plan,
    menu: Option<Seq<char>>,
    menu_path: Seq<char>,
    nomount: Option<Seq<char>>,
    autoexec: Seq<char>,
    script: Seq<char>,
) -> Result<(Seq<(Seq<char>, Seq<char>)>, Seq<Seq<char>>), Seq<char>> {
    match addon_part(p, plan, menu, menu_path, nomount, script) {
        Err(e) => Err(e),
        Ok((aw, an)) => match settings_part(p, autoexec) {
            Err(e) => Err(e),
            Ok(sw) => match (if p.sync.settings {
                mapping_writes(p.file_mappings@)
            } else {
                Ok(seq![])
            }) {
                Err(e) => Err(e),
                Ok(mw) => Ok((aw + sw + mw, an + empty_notes(p))),
            },
        },
    }
}

fn push_write(writes: &mut Vec<ConfigWrite>, relative: &str, content: String)
    ensures
        writes_view(final(writes)@) == writes_view(old(writes)@).push((relative@, content@)),
{
    let ghost before = writes@;
    writes.push(ConfigWrite { relative: relative.to_string(), content });
    assert(writes_view(writes@) =~= writes_view(before).push((relative@, content@)));
}

/// The IDs of the preset's available items, in order.
pub fn wanted_ids(profile: &Profile) -> (r: Vec<String>)
    ensures
        str_views(r@) == item_ids(shown_items(profile.workshop.items@)),
{
    let items = &profile.workshop.items;
    let ghost all = items@;
    let mut r: Vec<String> = Vec::new();
    let mut i: usize = 0;
    while i < items.len()
        invariant
            i <= all.len(),
            all == items@,
            str_views(r@) == item_ids(shown_items(all.take(i as int))),
        decreases items.len() - i,
    {
        let ghost prev = shown_items(all.take(i as int));
        assert(all.take(i + 1).drop_last() =~= all.take(i as int));
        if items[i].available {
            let ghost before = str_views(r@);
            r.push(items[i].id.clone());
            assert(str_views(r@) =~= before.push(all[i as int].id@));
            assert(item_ids(prev.push(all[i as int])) =~= item_ids(prev).push(all[i as int].id@));
        }
        i = i + 1;
    }
    assert(all.take(i as int) =~= all);
    r
}

fn addon_writes(
    profile: &Profile,
    plan: &Plan,
    files: &ConfigFiles,
    catalog_ids: &Vec<String>,
    catalog_json: &str,
    tab_js: &str,
) -> (r: Result<(Vec<ConfigWrite>, Vec<String>), String>)
    ensures
        match r {
            Ok((w, n)) => addon_part(
                *profile,
                *plan,
                opt_view(files.menu),
                files.menu_path@,
                opt_view(files.nomount),
                spec_menu_script(
                    profile.id@,
                    str_views(plan.subscribe@),
                    str_views(plan.unsubscribe@),
                    str_views(catalog_ids@),
                    catalog_json@,
                    tab_js@,
                ),
            ) == Ok::<_, Seq<char>>((writes_view(w@), str_views(n@))),
            Err(e) => addon_part(
                *profile,
                *plan,
                opt_view(files.menu),
                files.menu_path@,
                opt_view(files.nomount),
                spec_menu_script(
                    profile.id@,
                    str_views(plan.subscribe@),
                    str_views(plan.unsubscribe@),
                    str_views(catalog_ids@),
                    catalog_json@,
                    tab_js@,
                ),
            ) == Err::<(Seq<(Seq<char>, Seq<char>)>, Seq<Seq<char>>), _>(e@),
        },
{
    let mut writes: Vec<ConfigWrite> = Vec::new();
    let mut notes: Vec<String> = Vec::new();
    assert(writes_view(writes@) =~= seq![]);
    assert(str_views(notes@) =~= seq![]);
    if !manage_addons(profile, plan) {
        if let Some(m) = &files.menu {
            match without_managed_block(m.as_str(), MENU_BEGIN, MENU_END) {
                Err(e) => {
                    return Err(e);
                },
                Ok(n) => {
                    if !crate::text::str_eq(n.as_str(), m.as_str()) {
                        push_write(&mut writes, "lua/menu/menu.lua", n);
                    }
                },
            }
        }
        return Ok((writes, notes));
    }
    let m = match &files.menu {
        None => {
            let mut msg: Vec<char> = Vec::new();
            push_str(&mut msg, "GMod menu script was not found: ");
            push_str(&mut msg, files.menu_path.as_str());
            return Err(string_of(&msg));
        },
        Some(m) => m,
    };
    let n = match without_managed_block(m.as_str(), MENU_BEGIN, MENU_END) {
        Err(e) => {
            return Err(e);
        },
        Ok(n) => n,
    };
    let mut next = chars_of(n.as_str());
    if !ends_with_newline(&next) {
        next.push('\n');
    }
    push_str(&mut next, MENU_BEGIN);
    next.push('\n');
    push_str(&mut next, MENU_LINE);
    next.push('\n');
    push_str(&mut next, MENU_END);
    next.push('\n');
    assert(next@ == spec_menu_with_block(n@));
    let script = workshop_menu_script(profile, plan, catalog_ids, catalog_json, tab_js);
    let ghost script_v = script@;
    push_write(&mut writes, "lua/menu/gmm_workshop.lua", script);
    let next_text = string_of(&next);
    if !crate::text::str_eq(next_text.as_str(), m.as_str()) {
        push_write(&mut writes, "lua/menu/menu.lua", next_text);
    }
    let ghost w0 = seq![("lua/menu/gmm_workshop.lua"@, script_v)] + (if next@ != m@ {
        seq![("lua/menu/menu.lua"@, next@)]
    } else {
        seq![]
    });
    assert(writes_view(writes@) =~= w0);
    if let Some(text) = &files.nomount {
        let wanted = wanted_ids(profile);
        let (out, removed) = filter_nomount(text.as_str(), &wanted);
        if removed > 0 {
            push_write(&mut writes, "cfg/addonnomount.txt", out);
            let mut note: Vec<char> = Vec::new();
            push_str(&mut note, "Turns ");
            push_decimal(&mut note, removed as u64);
            push_str(&mut note, " disabled mods back on.");
            notes.push(string_of(&note));
            assert(str_views(notes@) =~= seq![disabled_note(removed as nat)]);
        }
    }
    Ok((writes, notes))
}

fn settings_writes(profile: &Profile, autoexec: &str) -> (r: Result<Vec<ConfigWrite>, String>)
    ensures
        match r {
            Ok(w) => settings_part(*profile, autoexec@) == Ok::<_, Seq<char>>(writes_view(w@)),
            Err(e) => settings_part(*profile, autoexec@) == Err::<Seq<(Seq<char>, Seq<char>)>, _>(
                e@,
            ),
        },
{
    let mut writes: Vec<ConfigWrite> = Vec::new();
    assert(writes_view(writes@) =~= seq![]);
    let (cfg, any) = active_config(profile);
    let base = match without_managed_block(autoexec, BEGIN, END) {
        Err(e) => {
            return Err(e);
        },
        Ok(b) => b,
    };
    let mut next = chars_of(base.as_str());
    if any {
        if next.len() > 0 && !ends_with_newline(&next) {
            next.push('\n');
        }
        let ghost lead = next@;
        push_str(&mut next, BEGIN);
        next.push('\n');
        push_str(&mut next, AUTOEXEC_LINE);
        next.push('\n');
        push_str(&mut next, END);
        next.push('\n');
        assert(next@ =~= lead + autoexec_block());
        push_write(&mut writes, "cfg/gmm_active.cfg", cfg);
    }
    assert(spec_next_autoexec(autoexec@, command_count(*profile)) == Ok::<_, Seq<char>>(next@));
    let ghost first = writes_view(writes@);
    let next_text = string_of(&next);
    if !crate::text::str_eq(next_text.as_str(), autoexec) {
        push_write(&mut writes, "cfg/autoexec.cfg", next_text);
        assert(writes_view(writes@) =~= first + seq![("cfg/autoexec.cfg"@, next@)]);
    } else {
        assert(writes_view(writes@) =~= first + seq![]);
    }
    Ok(writes)
}

#[verifier::rlimit(40)]
#[verifier::spinoff_prover]
fn mapped_writes(mappings: &Vec<FileMapping>) -> (r: Result<Vec<ConfigWrite>, String>)
    ensures
        match r {
            Ok(w) => mapping_writes(mappings@) == Ok::<_, Seq<char>>(writes_view(w@)),
            Err(e) => mapping_writes(mappings@) == Err::<Seq<(Seq<char>, Seq<char>)>, _>(e@),
        },
{
    let ghost all = mappings@;
    let mut writes: Vec<ConfigWrite> = Vec::new();
    let mut i: usize = 0;
    assert(all.skip(0) =~= all);
    assert(writes_view(writes@) =~= seq![]);
    while i < mappings.len()
        invariant
            i <= all.len(),
            all == mappings@,
            mapping_writes(all) == (match mapping_writes(all.skip(i as int)) {
                Err(e) => Err(e),
                Ok(rest) => Ok(writes_view(writes@) + rest),
            }),
        decreases mappings.len() - i,
    {
        assert(all.skip(i as int).drop_first() =~= all.skip(i + 1));
        assert(all.skip(i as int)[0] == all[i as int]);
        let f = &mappings[i];
        if f.active() {
            match checked_mapping(f.path.as_str()) {
                Err(e) => {
                    return Err(e);
                },
                Ok(rel) => {
                    let ghost before = writes_view(writes@);
                    push_write(&mut writes, rel.as_str(), f.content.clone());
                    proof {
                        match mapping_writes(all.skip(i + 1)) {
                            Err(e) => {},
                            Ok(rest) => {
                                assert(before.push((rel@, f.content@)) + rest =~= before + (seq![
                                    (rel@, f.content@),
                                ] + rest));
                            },
                        }
                    }
                },
            }
        }
        i = i + 1;
    }
    assert(all.skip(i as int) =~= Seq::<FileMapping>::empty());
    assert(writes_view(writes@) + seq![] =~= writes_view(writes@));
    Ok(writes)
}

/// The config files an apply writes for a preset, in order, and the notes to show; or the first
/// error. `files` is what the game folder holds, `catalog_ids` and `catalog_json` the data of the
/// GMod Manager tab, `tab_js` its script.
pub fn config_plan(
    profile: &Profile,
    plan: &Plan,
    files: &ConfigFiles,
    catalog_ids: &Vec<String>,
    catalog_json: &str,
    tab_js: &str,
) -> (r: Result<ConfigPlan, String>)
    ensures
        match r {
            Ok(c) => spec_config_plan(
                *profile,
                *plan,
                opt_view(files.menu),
                files.menu_path@,
                opt_view(files.nomount),
                files.autoexec@,
                spec_menu_script(
                    profile.id@,
                    str_views(plan.subscribe@),
                    str_views(plan.unsubscribe@),
                    str_views(catalog_ids@),
                    catalog_json@,
                    tab_js@,
                ),
            ) == Ok::<_, Seq<char>>((writes_view(c.writes@), str_views(c.notes@))),
            Err(e) => spec_config_plan(
                *profile,
                *plan,
                opt_view(files.menu),
                files.menu_path@,
                opt_view(files.nomount),
                files.autoexec@,
                spec_menu_script(
                    profile.id@,
                    str_views(plan.subscribe@),
                    str_views(plan.unsubscribe@),
                    str_views(catalog_ids@),
                    catalog_json@,
                    tab_js@,
                ),
            ) == Err::<(Seq<(Seq<char>, Seq<char>)>, Seq<Seq<char>>), _>(e@),
        },
{
    let (mut writes, mut notes) = match addon_writes(
        profile,
        plan,
        files,
        catalog_ids,
        catalog_json,
        tab_js,
    ) {
        Err(e) => {
            return Err(e);
        },
        Ok(x) => x,
    };
    let mut sw = match settings_writes(profile, files.autoexec.as_str()) {
        Err(e) => {
            return Err(e);
        },
        Ok(w) => w,
    };
    let mut mw: Vec<ConfigWrite> = Vec::new();
    if profile.sync.settings {
        mw = match mapped_writes(&profile.file_mappings) {
            Err(e) => {
                return Err(e);
            },
            Ok(w) => w,
        };
    }
    assert(writes_view(mw@) =~= seq![] || profile.sync.settings);
    let ghost aw = writes_view(writes@);
    let ghost an = str_views(notes@);
    let ghost swv = writes_view(sw@);
    let ghost mwv = writes_view(mw@);
    writes.append(&mut sw);
    writes.append(&mut mw);
    assert(writes_view(writes@) =~= aw + swv + mwv);
    if profile.sync.binds && profile.binds.len() == 0 {
        notes.push("Binds are on, but the list is empty.".to_string());
    }
    if profile.sync.settings && profile.convars.len() == 0 && profile.file_mappings.len() == 0 {
        notes.push("Settings are on, but the list is empty.".to_string());
    }
    assert(str_views(notes@) =~= an + empty_notes(*profile));
    Ok(ConfigPlan { writes, notes })
}

/// A preset that validates writes every active mapped file: no path of its is refused.
pub proof fn lemma_sound_mappings_write(p: Profile)
    requires
        profile_sound(p),
    ensures
        mapping_writes(p.file_mappings@) is Ok,
{
    lemma_mapping_writes_ok(p.file_mappings@);
}

proof fn lemma_mapping_writes_ok(m: Seq<FileMapping>)
    requires
        forall|i: int| 0 <= i < m.len() && mapping_active(#[trigger] m[i]) ==> spec_checked_mapping(m[i].path@) is Ok,
    ensures
        mapping_writes(m) is Ok,
    decreases m.len(),
{
    if m.len() > 0 {
        assert forall|i: int| 0 <= i < m.drop_first().len() && mapping_active(#[trigger] m.drop_first()[i]) implies spec_checked_mapping(m.drop_first()[i].path@) is Ok by {
            assert(m.drop_first()[i] == m[i + 1]);
        }
        lemma_mapping_writes_ok(m.drop_first());
        if mapping_active(m[0]) {
            assert(spec_checked_mapping(m[0].path@) is Ok);
        }
    }
}

/// `p` does not occur in `s` at all.
pub open spec fn absent(s: Seq<char>, p: Seq<char>) -> bool {
    forall|k: int| 0 <= k ==> !occurs_at(s, p, k)
}

pub(crate) proof fn lemma_find_is(s: Seq<char>, p: Seq<char>, i: int)
    requires
        i == -1 ==> absent(s, p),
        i != -1 ==> 0 <= i && occurs_at(s, p, i) && forall|k: int| 0 <= k < i ==> !occurs_at(s, p, k),
    ensures
        find(s, p) == i,
{
    lemma_find_from(s, p, 0);
    let f = find(s, p);
    if f != i {
        if f == -1 {
            assert(!occurs_at(s, p, i));
        } else if i == -1 {
            assert(!occurs_at(s, p, f));
        } else if f < i {
            assert(!occurs_at(s, p, f));
        } else {
            assert(!occurs_at(s, p, i));
        }
    }
}

/// After a prefix that ends a line and holds no `p`, the occurrences of a one-line `p` are those
/// of the rest, shifted.
proof fn lemma_occurs_after_line(a: Seq<char>, r: Seq<char>, p: Seq<char>, k: int)
    requires
        p.len() > 0,
        !p.contains('\n'),
        absent(a, p),
        a.len() == 0 || a.last() == '\n',
        0 <= k,
    ensures
        occurs_at(a + r, p, k) == (k >= a.len() && occurs_at(r, p, k - a.len())),
{
    let s = a + r;
    if k < a.len() {
        if occurs_at(s, p, k) {
            if k + p.len() <= a.len() {
                assert(a.subrange(k, k + p.len()) =~= s.subrange(k, k + p.len()));
                assert(occurs_at(a, p, k));
            } else {
                let j = a.len() - 1 - k;
                assert(s.subrange(k, k + p.len())[j] == s[a.len() - 1]);
                assert(p[j] == '\n');
                assert(p.contains('\n'));
            }
        }
    } else {
        if k + p.len() <= s.len() {
            assert(s.subrange(k, k + p.len()) =~= r.subrange(k - a.len(), k - a.len() + p.len()));
        }
    }
}

proof fn lemma_find_after_line(a: Seq<char>, r: Seq<char>, p: Seq<char>)
    requires
        p.len() > 0,
        !p.contains('\n'),
        absent(a, p),
        a.len() == 0 || a.last() == '\n',
    ensures
        find(a + r, p) == (if find(r, p) < 0 {
            -1
        } else {
            a.len() + find(r, p)
        }),
{
    lemma_find_from(r, p, 0);
    let fr = find(r, p);
    assert forall|k: int| 0 <= k implies occurs_at(a + r, p, k) == (k >= a.len() && occurs_at(
        r,
        p,
        k - a.len(),
    )) by {
        lemma_occurs_after_line(a, r, p, k);
    }
    if fr < 0 {
        lemma_find_is(a + r, p, -1);
    } else {
        lemma_find_is(a + r, p, a.len() + fr);
    }
}

/// Text that holds no `p` still holds none after a line break is added.
proof fn lemma_absent_push_newline(a: Seq<char>, p: Seq<char>)
    requires
        p.len() > 0,
        !p.contains('\n'),
        absent(a, p),
    ensures
        absent(a.push('\n'), p),
{
    assert forall|k: int| 0 <= k implies !occurs_at(a.push('\n'), p, k) by {
        if occurs_at(a.push('\n'), p, k) {
            if k + p.len() <= a.len() {
                assert(a.push('\n').subrange(k, k + p.len()) =~= a.subrange(k, k + p.len()));
                assert(!occurs_at(a, p, k));
            } else {
                let j = a.len() - k;
                assert(a.push('\n').subrange(k, k + p.len())[j] == '\n');
                assert(p[j] == '\n');
                assert(p.contains('\n'));
            }
        }
    }
}

/// A managed block: its first marker, a line, its end marker, each on a line of its own.
pub open spec fn block(begin: Seq<char>, line: Seq<char>, end_marker: Seq<char>) -> Seq<char> {
    begin + seq!['\n'] + line + seq!['\n'] + end_marker + seq!['\n']
}

/// The conditions under which a managed block is found again and removed whole: markers and
/// line are single lines, the end marker occurs in neither the first marker nor the line, and
/// the text before the block holds no first marker and ends a line.
pub open spec fn block_fits(prefix: Seq<char>, begin: Seq<char>, line: Seq<char>, end_marker: Seq<char>) -> bool {
    &&& begin.len() > 0
    &&& end_marker.len() > 0
    &&& !begin.contains('\n')
    &&& !line.contains('\n')
    &&& !end_marker.contains('\n')
    &&& absent(begin, end_marker)
    &&& absent(line, end_marker)
    &&& absent(prefix, begin)
    &&& (prefix.len() == 0 || prefix.last() == '\n')
}

/// Removing the managed block right after `prefix` gives back `prefix`.
pub proof fn lemma_block_removed(prefix: Seq<char>, begin: Seq<char>, line: Seq<char>, end_marker: Seq<char>)
    requires
        block_fits(prefix, begin, line, end_marker),
    ensures
        spec_without_managed_block(prefix + block(begin, line, end_marker), begin, end_marker)
            == Ok::<_, Seq<char>>(prefix),
{
    let blk = block(begin, line, end_marker);
    let m = prefix + blk;
    assert(occurs_at(blk, begin, 0)) by {
        assert(blk.subrange(0, begin.len() as int) =~= begin);
    }
    lemma_find_is(blk, begin, 0);
    lemma_find_after_line(prefix, blk, begin);
    let start = prefix.len() as int;
    assert(m.subrange(start, m.len() as int) =~= blk);
    let a1 = begin.push('\n');
    lemma_absent_push_newline(begin, end_marker);
    let a2 = line.push('\n');
    lemma_absent_push_newline(line, end_marker);
    let tail = end_marker + seq!['\n'];
    assert(occurs_at(tail, end_marker, 0)) by {
        assert(tail.subrange(0, end_marker.len() as int) =~= end_marker);
    }
    lemma_find_is(tail, end_marker, 0);
    lemma_find_after_line(a2, tail, end_marker);
    assert(a2 + tail == line + seq!['\n'] + end_marker + seq!['\n']) by {
        assert(a2 + tail =~= line + seq!['\n'] + end_marker + seq!['\n']);
    }
    lemma_find_after_line(a1, a2 + tail, end_marker);
    assert(blk =~= a1 + (a2 + tail));
    let rel = find(blk, end_marker);
    assert(rel == a1.len() + a2.len());
    let end = start + rel + end_marker.len();
    assert(m.subrange(end, m.len() as int) =~= seq!['\n']);
    assert(trim_newlines_start(seq!['\n']) =~= Seq::<char>::empty()) by {
        assert(seq!['\n'].drop_first() =~= Seq::<char>::empty());
        assert(trim_newlines_start(Seq::<char>::empty()) == Seq::<char>::empty());
    }
    assert(m.subrange(0, start) =~= prefix);
}

/// Where `begin` first occurs at the end of `prefix + begin`, it first occurs there in any text
/// that goes on after it.
proof fn lemma_find_first_at(prefix: Seq<char>, begin: Seq<char>, rest: Seq<char>)
    requires
        begin.len() > 0,
        find(prefix + begin, begin) == prefix.len(),
    ensures
        find(prefix + begin + rest, begin) == prefix.len(),
{
    let a = prefix + begin;
    let m = a + rest;
    lemma_find_from(a, begin, 0);
    assert forall|k: int| 0 <= k < prefix.len() implies !occurs_at(m, begin, k) by {
        if occurs_at(m, begin, k) {
            assert(m.subrange(k, k + begin.len()) =~= a.subrange(k, k + begin.len()));
            assert(occurs_at(a, begin, k));
            lemma_find_before(a, begin, 0, k);
        }
    }
    assert(m.subrange(prefix.len() as int, (prefix.len() + begin.len()) as int) =~= begin);
    lemma_find_is(m, begin, prefix.len() as int);
}

/// `find_from` passes over no occurrence: one at `k` means the search from `from <= k` stops at
/// or before `k`.
proof fn lemma_find_before(s: Seq<char>, p: Seq<char>, from: int, k: int)
    requires
        0 <= from <= k,
        occurs_at(s, p, k),
    ensures
        0 <= find_from(s, p, from) <= k,
    decreases k - from,
{
    if !occurs_at(s, p, from) {
        lemma_find_before(s, p, from + 1, k);
    }
}

/// Removing a managed block gives back the text before it and the text after it, less the line
/// breaks that start the latter; the block's body may be several lines, and it holds no end
/// marker.
pub proof fn lemma_block_removed_between(
    prefix: Seq<char>,
    begin: Seq<char>,
    body: Seq<char>,
    end_marker: Seq<char>,
    rest: Seq<char>,
)
    requires
        begin.len() > 0,
        end_marker.len() > 0,
        !end_marker.contains('\n'),
        absent(begin, end_marker),
        absent(body, end_marker),
        find(prefix + begin, begin) == prefix.len(),
    ensures
        spec_without_managed_block(prefix + block(begin, body, end_marker) + rest, begin, end_marker)
            == Ok::<_, Seq<char>>(prefix + trim_newlines_start(rest)),
{
    let blk = block(begin, body, end_marker);
    let m = prefix + blk + rest;
    let after_begin = seq!['\n'] + body + seq!['\n'] + end_marker + seq!['\n'] + rest;
    assert(m =~= prefix + begin + after_begin);
    lemma_find_first_at(prefix, begin, after_begin);
    let start = prefix.len() as int;
    let a1 = begin.push('\n');
    lemma_absent_push_newline(begin, end_marker);
    let a2 = body.push('\n');
    lemma_absent_push_newline(body, end_marker);
    let tail = end_marker + seq!['\n'] + rest;
    assert(occurs_at(tail, end_marker, 0)) by {
        assert(tail.subrange(0, end_marker.len() as int) =~= end_marker);
    }
    lemma_find_is(tail, end_marker, 0);
    lemma_find_after_line(a2, tail, end_marker);
    lemma_find_after_line(a1, a2 + tail, end_marker);
    assert(m.subrange(start, m.len() as int) =~= a1 + (a2 + tail));
    let rel = find(a1 + (a2 + tail), end_marker);
    assert(rel == a1.len() + a2.len());
    let end = start + rel + end_marker.len();
    assert(m.subrange(end, m.len() as int) =~= seq!['\n'] + rest);
    assert((seq!['\n'] + rest).drop_first() =~= rest);
    assert(trim_newlines_start(seq!['\n'] + rest) == trim_newlines_start(rest));
    assert(m.subrange(0, start) =~= prefix);
}

/// Text without the first marker is left as it is; text with the first marker and no end marker
/// after it is refused.
pub proof fn lemma_block_markers_missing(source: Seq<char>, begin: Seq<char>, end_marker: Seq<char>)
    ensures
        find(source, begin) < 0 ==> spec_without_managed_block(source, begin, end_marker) == Ok::<
            _,
            Seq<char>,
        >(source),
        find(source, begin) >= 0 && find(
            source.subrange(find(source, begin), source.len() as int),
            end_marker,
        ) < 0 ==> spec_without_managed_block(source, begin, end_marker) is Err,
{
}

/// For the two managed blocks the manager writes (`// GMM MANAGED BEGIN` … `END` in
/// `autoexec.cfg`, `-- GMM WORKSHOP BEGIN` … `END` in `menu.lua`): when the first marker first
/// occurs right after `before`, and the block's body (any number of lines) holds no end marker,
/// taking the block out gives `before` and what followed the block, less its leading line
/// breaks. Text without the first marker is left as it is, and text with the first marker but no
/// end marker after it is refused.
pub proof fn lemma_managed_block_removed(
    menu: bool,
    before: Seq<char>,
    body: Seq<char>,
    after: Seq<char>,
    source: Seq<char>,
)
    requires
        find(before + (if menu { MENU_BEGIN@ } else { BEGIN@ }), if menu {
            MENU_BEGIN@
        } else {
            BEGIN@
        }) == before.len(),
        absent(body, if menu { MENU_END@ } else { END@ }),
    ensures
        ({
            let (b, e) = if menu {
                (MENU_BEGIN@, MENU_END@)
            } else {
                (BEGIN@, END@)
            };
            &&& spec_without_managed_block(before + block(b, body, e) + after, b, e) == Ok::<
                _,
                Seq<char>,
            >(before + trim_newlines_start(after))
            &&& find(source, b) < 0 ==> spec_without_managed_block(source, b, e) == Ok::<
                _,
                Seq<char>,
            >(source)
            &&& find(source, b) >= 0 && find(source.subrange(find(source, b), source.len() as int), e)
                < 0 ==> spec_without_managed_block(source, b, e) is Err
        }),
{
    lemma_markers();
    let (b, e) = if menu {
        (MENU_BEGIN@, MENU_END@)
    } else {
        (BEGIN@, END@)
    };
    lemma_block_removed_between(before, b, body, e, after);
    lemma_block_markers_missing(source, b, e);
}

/// The managed blocks of the menu and of `autoexec.cfg` can be found again and removed whole.
pub(crate) proof fn lemma_markers()
    ensures
        block_fits(seq![], MENU_BEGIN@, MENU_LINE@, MENU_END@),
        block_fits(seq![], BEGIN@, AUTOEXEC_LINE@, END@),
{
    reveal_strlit("-- GMM WORKSHOP BEGIN");
    reveal_strlit("-- GMM WORKSHOP END");
    reveal_strlit("include( \"gmm_workshop.lua\" )");
    reveal_strlit("// GMM MANAGED BEGIN");
    reveal_strlit("// GMM MANAGED END");
    reveal_strlit("exec gmm_active.cfg");
    let mb = MENU_BEGIN@;
    let me = MENU_END@;
    let ml = MENU_LINE@;
    let ab = BEGIN@;
    let ae = END@;
    let al = AUTOEXEC_LINE@;
    assert(mb.len() == 21 && me.len() == 19 && ml.len() == 29);
    assert(ab.len() == 20 && ae.len() == 18 && al.len() == 19);
    assert(forall|k: int| 0 <= k < mb.len() ==> mb[k] != '\n');
    assert(forall|k: int| 0 <= k < me.len() ==> me[k] != '\n');
    assert(forall|k: int| 0 <= k < ml.len() ==> ml[k] != '\n' && ml[k] != '-');
    assert(forall|k: int| 0 <= k < ab.len() ==> ab[k] != '\n');
    assert(forall|k: int| 0 <= k < ae.len() ==> ae[k] != '\n');
    assert(forall|k: int| 0 <= k < al.len() ==> al[k] != '\n' && al[k] != '/');
    assert(!mb.contains('\n') && !me.contains('\n') && !ml.contains('\n'));
    assert(!ab.contains('\n') && !ae.contains('\n') && !al.contains('\n'));
    assert forall|k: int| 0 <= k implies !occurs_at(mb, me, k) by {
        if occurs_at(mb, me, k) {
            let w = mb.subrange(k, k + me.len());
            if k == 0 {
                assert(w[16] != me[16]);
            } else if k == 1 {
                assert(w[1] != me[1]);
            } else {
                assert(w[0] != me[0]);
            }
        }
    }
    assert forall|k: int| 0 <= k implies !occurs_at(ml, me, k) by {
        if occurs_at(ml, me, k) {
            assert(ml.subrange(k, k + me.len())[0] == ml[k]);
        }
    }
    assert forall|k: int| 0 <= k implies !occurs_at(ab, ae, k) by {
        if occurs_at(ab, ae, k) {
            let w = ab.subrange(k, k + ae.len());
            if k == 0 {
                assert(w[15] != ae[15]);
            } else if k == 1 {
                assert(w[1] != ae[1]);
            } else {
                assert(w[0] != ae[0]);
            }
        }
    }
    assert forall|k: int| 0 <= k implies !occurs_at(al, ae, k) by {
        if occurs_at(al, ae, k) {
            assert(al.subrange(k, k + ae.len())[0] == al[k]);
        }
    }
    assert forall|k: int| 0 <= k implies !occurs_at(seq![], mb, k) by {}
    assert forall|k: int| 0 <= k implies !occurs_at(seq![], ab, k) by {}
}

/// Applying a preset again leaves `menu.lua` as the first apply wrote it: the bridge block is
/// found, taken out and put back unchanged. This holds when the menu held at most one block.
pub proof fn lemma_menu_stable(n: Seq<char>)
    requires
        absent(n, MENU_BEGIN@),
    ensures
        spec_without_managed_block(spec_menu_with_block(n), MENU_BEGIN@, MENU_END@) matches Ok(n2)
            && spec_menu_with_block(n2) == spec_menu_with_block(n),
{
    lemma_markers();
    let n1 = if !ends_nl(n) {
        n.push('\n')
    } else {
        n
    };
    if !ends_nl(n) {
        lemma_absent_push_newline(n, MENU_BEGIN@);
    }
    assert(block_fits(n1, MENU_BEGIN@, MENU_LINE@, MENU_END@));
    lemma_block_removed(n1, MENU_BEGIN@, MENU_LINE@, MENU_END@);
}

/// Applying a preset again leaves `autoexec.cfg` as the first apply wrote it. This holds when
/// the file held at most one managed block.
pub proof fn lemma_autoexec_stable(current: Seq<char>, commands: nat)
    requires
        spec_without_managed_block(current, BEGIN@, END@) matches Ok(base) && absent(base, BEGIN@),
    ensures
        spec_next_autoexec(current, commands) matches Ok(next) && spec_next_autoexec(next, commands)
            == Ok::<_, Seq<char>>(next),
{
    lemma_markers();
    let base = spec_without_managed_block(current, BEGIN@, END@)->Ok_0;
    if commands == 0 {
        lemma_find_is(base, BEGIN@, -1);
    } else {
        let b1 = if base.len() > 0 && !ends_nl(base) {
            base.push('\n')
        } else {
            base
        };
        if base.len() > 0 && !ends_nl(base) {
            lemma_absent_push_newline(base, BEGIN@);
        }
        assert(block_fits(b1, BEGIN@, AUTOEXEC_LINE@, END@));
        lemma_block_removed(b1, BEGIN@, AUTOEXEC_LINE@, END@);
    }
}

proof fn lemma_split_plain(x: Seq<char>)
    requires
        !x.contains('\n'),
    ensures
        split(x, '\n') == seq![x],
{
    assert forall|k: int| 0 <= k < x.len() implies x[k] != '\n' by {
        if x[k] == '\n' {
            assert(x.contains('\n'));
        }
    }
    lemma_index_of_none(x, '\n');
}

proof fn lemma_split_front(x: Seq<char>, y: Seq<char>)
    requires
        !x.contains('\n'),
    ensures
        split(x + seq!['\n'] + y, '\n') == seq![x] + split(y, '\n'),
{
    let s = x + seq!['\n'] + y;
    assert forall|k: int| 0 <= k < x.len() implies s[k] != '\n' by {
        assert(s[k] == x[k]);
        if x[k] == '\n' {
            assert(x.contains('\n'));
        }
    }
    assert(s[x.len() as int] == '\n');
    lemma_index_of_at(s, '\n', x.len() as int);
    assert(s.take(x.len() as int) =~= x);
    assert(s.skip(x.len() as int + 1) =~= y);
}

proof fn lemma_join_front(ls: Seq<Seq<char>>)
    requires
        ls.len() >= 2,
    ensures
        join_lines(ls) == ls[0] + seq!['\n'] + join_lines(ls.drop_first()),
    decreases ls.len(),
{
    if ls.len() > 2 {
        lemma_join_front(ls.drop_last());
        let d = ls.drop_first().drop_last();
        assert(ls.drop_last().drop_first() =~= d);
        assert(ls.drop_first().last() == ls.last());
        assert(ls.drop_last()[0] == ls[0]);
        assert(join_lines(ls.drop_first()) == join_lines(d) + seq!['\n'] + ls.last());
        assert(join_lines(ls) == join_lines(ls.drop_last()) + seq!['\n'] + ls.last());
        assert(join_lines(ls) =~= ls[0] + seq!['\n'] + join_lines(ls.drop_first()));
    } else {
        assert(ls.drop_first() =~= seq![ls[1]]);
        assert(ls.drop_last() =~= seq![ls[0]]);
        assert(join_lines(ls.drop_last()) == ls[0]);
        assert(join_lines(ls.drop_first()) == ls[1]);
        assert(join_lines(ls) =~= ls[0] + seq!['\n'] + join_lines(ls.drop_first()));
    }
}

pub open spec fn one_line_each(ls: Seq<Seq<char>>) -> bool {
    forall|i: int| 0 <= i < ls.len() ==> !(#[trigger] ls[i]).contains('\n')
}

proof fn lemma_split_join(ls: Seq<Seq<char>>)
    requires
        ls.len() >= 1,
        one_line_each(ls),
    ensures
        split(join_lines(ls), '\n') == ls,
        split(join_lines(ls) + seq!['\n'], '\n') == ls.push(seq![]),
    decreases ls.len(),
{
    if ls.len() == 1 {
        assert(join_lines(ls) == ls[0]);
        lemma_split_plain(ls[0]);
        assert(ls =~= seq![ls[0]]);
        lemma_split_front(ls[0], seq![]);
        assert(ls[0] + seq!['\n'] + Seq::<char>::empty() =~= ls[0] + seq!['\n']);
        lemma_split_plain(Seq::<char>::empty());
        assert(ls.push(seq![]) =~= seq![ls[0]] + seq![Seq::<char>::empty()]);
    } else {
        let rest = ls.drop_first();
        assert(one_line_each(rest)) by {
            assert forall|i: int| 0 <= i < rest.len() implies !(#[trigger] rest[i]).contains('\n') by {
                assert(rest[i] == ls[i + 1]);
            }
        }
        assert(!ls[0].contains('\n'));
        lemma_split_join(rest);
        lemma_join_front(ls);
        lemma_split_front(ls[0], join_lines(rest));
        assert(ls =~= seq![ls[0]] + rest);
        lemma_split_front(ls[0], join_lines(rest) + seq!['\n']);
        assert(ls[0] + seq!['\n'] + join_lines(rest) + seq!['\n'] =~= ls[0] + seq!['\n'] + (
        join_lines(rest) + seq!['\n']));
        assert(ls.push(seq![]) =~= seq![ls[0]] + rest.push(seq![]));
    }
}

proof fn lemma_split_pieces(s: Seq<char>)
    ensures
        one_line_each(split(s, '\n')),
    decreases s.len(),
{
    lemma_index_of(s, '\n');
    let i = index_of(s, '\n');
    if i < 0 || i >= s.len() {
        assert forall|k: int| 0 <= k < s.len() implies s[k] != '\n' by {}
        assert(!s.contains('\n'));
    } else {
        lemma_split_pieces(s.skip(i + 1));
        let p = split(s, '\n');
        let rest = split(s.skip(i + 1), '\n');
        assert(p == seq![s.take(i)] + rest);
        assert forall|k: int| 0 <= k < p.len() implies !(#[trigger] p[k]).contains('\n') by {
            if k == 0 {
                assert(p[0] == s.take(i));
                if s.take(i).contains('\n') {
                    let j = choose|j: int| 0 <= j < s.take(i).len() && s.take(i)[j] == '\n';
                    assert(s[j] == '\n');
                }
            } else {
                assert(p[k] == rest[k - 1]);
            }
        }
    }
}

proof fn lemma_lines_one_line(s: Seq<char>)
    ensures
        one_line_each(lines(s)),
{
    lemma_split_pieces(s);
    crate::text::lemma_split_nonempty(s, '\n');
    let p = split(s, '\n');
    let l = lines(s);
    assert forall|i: int| 0 <= i < l.len() implies !(#[trigger] l[i]).contains('\n') by {
        assert(!p[i].contains('\n'));
        if l[i] != p[i] {
            assert(l[i] == p[i].drop_last());
            if l[i].contains('\n') {
                let j = choose|j: int| 0 <= j < l[i].len() && l[i][j] == '\n';
                assert(p[i][j] == '\n');
            }
        }
    }
}

/// Each kept line is a line of the input that names no wanted item.
proof fn lemma_kept_from(ls: Seq<Seq<char>>, wanted: Seq<Seq<char>>)
    ensures
        forall|j: int|
            0 <= j < kept_lines(ls, wanted).len() ==> exists|i: int|
                0 <= i < ls.len() && ls[i] == #[trigger] kept_lines(ls, wanted)[j] && !line_names(
                    ls[i],
                    wanted,
                ),
    decreases ls.len(),
{
    if ls.len() > 0 {
        lemma_kept_from(ls.drop_last(), wanted);
        let k = kept_lines(ls, wanted);
        let kp = kept_lines(ls.drop_last(), wanted);
        assert forall|j: int| 0 <= j < k.len() implies exists|i: int|
            0 <= i < ls.len() && ls[i] == #[trigger] k[j] && !line_names(ls[i], wanted) by {
            if j < kp.len() {
                assert(k[j] == kp[j]);
                let i = choose|i: int|
                    0 <= i < ls.drop_last().len() && ls.drop_last()[i] == #[trigger] kp[j]
                        && !line_names(ls.drop_last()[i], wanted);
                assert(ls[i] == ls.drop_last()[i]);
            } else {
                assert(k[j] == ls[ls.len() - 1]);
            }
        }
    }
}

/// Dropping a final `\r` keeps a line from naming more items.
proof fn lemma_strip_cr_names(line: Seq<char>, wanted: Seq<Seq<char>>)
    requires
        !line_names(line, wanted),
    ensures
        !line_names(strip_cr(line), wanted),
{
    if line.len() > 0 && line.last() == '\r' {
        let short = line.drop_last();
        assert(line == short.push('\r'));
        assert(!is_digit('\r'));
        let t = digit_tokens(short);
        assert(digit_tokens(line) == t.push(seq![]));
        if line_names(short, wanted) {
            let k = choose|k: int| 0 <= k < t.len() && wanted.contains(#[trigger] t[k]);
            assert(digit_tokens(line)[k] == t[k]);
        }
    }
}

proof fn lemma_none_removed(ls: Seq<Seq<char>>, wanted: Seq<Seq<char>>)
    requires
        forall|i: int| 0 <= i < ls.len() ==> !line_names(#[trigger] ls[i], wanted),
    ensures
        removed_count(ls, wanted) == 0,
    decreases ls.len(),
{
    if ls.len() > 0 {
        assert(!line_names(ls[ls.len() - 1], wanted));
        lemma_none_removed(ls.drop_last(), wanted);
    }
}

/// A second apply turns no more disabled mods back on: the list an apply writes names none of
/// the preset's available mods.
pub proof fn lemma_nomount_stable(text: Seq<char>, wanted: Seq<Seq<char>>)
    ensures
        removed_count(lines(nomount_output(text, wanted)), wanted) == 0,
{
    let ls = lines(text);
    let k = kept_lines(ls, wanted);
    let out = nomount_output(text, wanted);
    lemma_lines_one_line(text);
    lemma_kept_from(ls, wanted);
    assert(one_line_each(k)) by {
        assert forall|j: int| 0 <= j < k.len() implies !(#[trigger] k[j]).contains('\n') by {
            let i = choose|i: int| 0 <= i < ls.len() && ls[i] == #[trigger] k[j] && !line_names(ls[i], wanted);
            assert(!ls[i].contains('\n'));
        }
    }
    let lo = lines(out);
    if k.len() == 0 {
        assert(out =~= Seq::<char>::empty());
        lemma_split_plain(Seq::<char>::empty());
        assert(lo.len() == 0);
    } else {
        lemma_split_join(k);
        assert forall|j: int| 0 <= j < lo.len() implies !line_names(#[trigger] lo[j], wanted) by {
            let i = choose|i: int| 0 <= i < ls.len() && ls[i] == #[trigger] k[j] && !line_names(ls[i], wanted);
            lemma_strip_cr_names(k[j], wanted);
            if ends_nl(text) {
                assert(out == join_lines(k) + seq!['\n']);
                assert(lo[j] == strip_cr(k[j]));
            } else {
                assert(out =~= join_lines(k));
                assert(lo[j] == strip_cr(k[j]) || lo[j] == k[j]);
            }
        }
        lemma_none_removed(lo, wanted);
    }
}

} // verus!
