//! A second apply of the same preset: the config preview it makes writes nothing new.

use crate::config::{
    absent, addon_part, command_count, lemma_autoexec_stable, lemma_find_is, lemma_markers,
    lemma_menu_stable, lemma_nomount_stable, mapping_writes, settings_part, spec_config_plan,
    spec_next_autoexec, BEGIN, END, MENU_BEGIN, MENU_END,
};
use crate::model::{mapping_active, FileMapping, Profile};
use crate::preview::spec_without_managed_block;
use crate::text::{ascii_lower, split};
use crate::validate::{forward_slashes, normal_parts, path_pieces, profile_sound, spec_checked_mapping};
use crate::library::Plan;
use vstd::prelude::*;

verus! {

/// Every character of a piece of `split(s, sep)` is a character of `s`.
proof fn lemma_piece_chars(s: Seq<char>, sep: char)
    ensures
        forall|i: int, j: int|
            0 <= i < split(s, sep).len() && 0 <= j < split(s, sep)[i].len() ==> s.contains(
                #[trigger] split(s, sep)[i][j],
            ),
    decreases s.len(),
{
    crate::text::lemma_index_of(s, sep);
    let k = crate::text::index_of(s, sep);
    if 0 <= k < s.len() {
        let rest = s.skip(k + 1);
        lemma_piece_chars(rest, sep);
        assert forall|i: int, j: int|
            0 <= i < split(s, sep).len() && 0 <= j < split(s, sep)[i].len() implies s.contains(
                #[trigger] split(s, sep)[i][j],
            ) by {
            if i == 0 {
                assert(s.take(k)[j] == s[j]);
            } else {
                assert(split(s, sep)[i] == split(rest, sep)[i - 1]);
                let c = split(rest, sep)[i - 1][j];
                assert(rest.contains(c));
                let q = choose|q: int| 0 <= q < rest.len() && rest[q] == c;
                assert(s[k + 1 + q] == c);
            }
        }
    } else {
        assert forall|i: int, j: int|
            0 <= i < split(s, sep).len() && 0 <= j < split(s, sep)[i].len() implies s.contains(
                #[trigger] split(s, sep)[i][j],
            ) by {
            assert(split(s, sep) == seq![s]);
            assert(s[j] == split(s, sep)[i][j]);
        }
    }
}

/// The plain-name parts of pieces are among the pieces.
proof fn lemma_normal_parts_in(p: Seq<Seq<char>>)
    ensures
        forall|i: int| 0 <= i < normal_parts(p).len() ==> p.contains(#[trigger] normal_parts(p)[i]),
    decreases p.len(),
{
    if p.len() > 0 {
        lemma_normal_parts_in(p.drop_last());
        assert forall|i: int| 0 <= i < normal_parts(p).len() implies p.contains(
            #[trigger] normal_parts(p)[i],
        ) by {
            let rest = normal_parts(p.drop_last());
            if i < rest.len() {
                assert(normal_parts(p)[i] == rest[i]);
                let q = choose|q: int| 0 <= q < p.drop_last().len() && p.drop_last()[q] == rest[i];
                assert(p[q] == rest[i]);
            } else {
                assert(normal_parts(p)[i] == p.last());
                assert(p[p.len() - 1] == p.last());
            }
        }
    }
}

/// A path the mapping check accepts holds the first character of `cfg` or `data`, or the third
/// of `settings`.
proof fn lemma_accepted_letters(rel: Seq<char>)
    requires
        spec_checked_mapping(rel) is Ok,
    ensures
        rel.contains('c') || rel.contains('d') || rel.contains('t'),
{
    let s = forward_slashes(rel);
    let pieces = path_pieces(rel);
    let n = normal_parts(pieces);
    lemma_normal_parts_in(pieces);
    lemma_piece_chars(s, '/');
    reveal_strlit("cfg");
    reveal_strlit("data");
    reveal_strlit("settings");
    assert(pieces.contains(n[0]));
    let i = choose|i: int| 0 <= i < pieces.len() && pieces[i] == n[0];
    let j: int = if n[0] == "settings"@ {
        2
    } else {
        0
    };
    let c = pieces[i][j];
    assert(c == 'c' || c == 'd' || c == 't');
    assert(s.contains(c));
    let q = choose|q: int| 0 <= q < s.len() && s[q] == c;
    assert(rel[q] == c);
}

/// No path the mapping check accepts names a file an apply writes for itself.
pub proof fn lemma_mapped_path_not_managed(rel: Seq<char>)
    requires
        spec_checked_mapping(rel) is Ok,
    ensures
        rel != "lua/menu/gmm_workshop.lua"@,
        rel != "lua/menu/menu.lua"@,
        rel != "cfg/addonnomount.txt"@,
        rel != "cfg/gmm_active.cfg"@,
        rel != "cfg/autoexec.cfg"@,
{
    reveal_strlit("lua/menu/gmm_workshop.lua");
    reveal_strlit("lua/menu/menu.lua");
    reveal_strlit("cfg/addonnomount.txt");
    reveal_strlit("cfg/gmm_active.cfg");
    reveal_strlit("cfg/autoexec.cfg");
    let k1 = "lua/menu/gmm_workshop.lua"@;
    let k2 = "lua/menu/menu.lua"@;
    let k3 = "cfg/addonnomount.txt"@;
    let k4 = "cfg/gmm_active.cfg"@;
    let k5 = "cfg/autoexec.cfg"@;
    lemma_accepted_letters(rel);
    if rel == k1 || rel == k2 {
        assert(forall|k: int| 0 <= k < k1.len() ==> k1[k] != 'c' && k1[k] != 'd' && k1[k] != 't');
        assert(forall|k: int| 0 <= k < k2.len() ==> k2[k] != 'c' && k2[k] != 'd' && k2[k] != 't');
        assert(false);
    }
    assert(forall|k: int| 0 <= k < k3.len() ==> !('A' <= #[trigger] k3[k] <= 'Z'));
    assert(forall|k: int| 0 <= k < k4.len() ==> !('A' <= #[trigger] k4[k] <= 'Z'));
    assert(forall|k: int| 0 <= k < k5.len() ==> !('A' <= #[trigger] k5[k] <= 'Z'));
    assert(ascii_lower(k3) =~= k3);
    assert(ascii_lower(k4) =~= k4);
    assert(ascii_lower(k5) =~= k5);
}

/// What a file holds, when the folder has it.
pub open spec fn file_text(files: Map<Seq<char>, Seq<char>>, rel: Seq<char>) -> Option<Seq<char>> {
    if files.dom().contains(rel) {
        Some(files[rel])
    } else {
        None
    }
}

/// The text of `autoexec.cfg` as the preview reads it: empty when the file is missing.
pub open spec fn text_or_empty(t: Option<Seq<char>>) -> Seq<char> {
    match t {
        Some(t) => t,
        None => seq![],
    }
}

/// The files after the writes, in order; a later write to a file replaces an earlier one.
pub open spec fn written(files: Map<Seq<char>, Seq<char>>, w: Seq<(Seq<char>, Seq<char>)>) -> Map<
    Seq<char>,
    Seq<char>,
>
    decreases w.len(),
{
    if w.len() == 0 {
        files
    } else {
        written(files, w.drop_last()).insert(w.last().0, w.last().1)
    }
}

/// The config preview of a preset for the files of a game folder, as an apply makes it.
pub open spec fn plan_for_files(
    p: Profile,
    plan: Plan,
    files: Map<Seq<char>, Seq<char>>,
    menu_path: Seq<char>,
    script: Seq<char>,
) -> Result<(Seq<(Seq<char>, Seq<char>)>, Seq<Seq<char>>), Seq<char>> {
    spec_config_plan(
        p,
        plan,
        file_text(files, "lua/menu/menu.lua"@),
        menu_path,
        file_text(files, "cfg/addonnomount.txt"@),
        text_or_empty(file_text(files, "cfg/autoexec.cfg"@)),
        script,
    )
}

/// Each write puts into its file what the file holds already, so it changes nothing.
pub open spec fn writes_nothing_new(files: Map<Seq<char>, Seq<char>>, w: Seq<(Seq<char>, Seq<char>)>) -> bool {
    forall|i: int| 0 <= i < w.len() ==> file_text(files, (#[trigger] w[i]).0) == Some(w[i].1)
}

pub open spec fn write_keys(w: Seq<(Seq<char>, Seq<char>)>) -> Seq<Seq<char>> {
    w.map_values(|x: (Seq<char>, Seq<char>)| x.0)
}

pub open spec fn keys_distinct(w: Seq<(Seq<char>, Seq<char>)>) -> bool {
    forall|i: int, j: int| 0 <= i < j < w.len() ==> (#[trigger] w[i]).0 != (#[trigger] w[j]).0
}

/// A text with at most one managed block: what is left once the first is taken out holds no
/// first marker.
pub open spec fn one_block(text: Option<Seq<char>>, begin: Seq<char>, end_marker: Seq<char>) -> bool {
    text matches Some(t) ==> (spec_without_managed_block(t, begin, end_marker) matches Ok(n) ==> absent(
        n,
        begin,
    ))
}

/// With no file written twice, each write is what its file holds after them all, and every other
/// file is as it was.
proof fn lemma_written(files: Map<Seq<char>, Seq<char>>, w: Seq<(Seq<char>, Seq<char>)>)
    requires
        keys_distinct(w),
    ensures
        writes_nothing_new(written(files, w), w),
        forall|k: Seq<char>|
            !write_keys(w).contains(k) ==> #[trigger] file_text(written(files, w), k) == file_text(
                files,
                k,
            ),
    decreases w.len(),
{
    if w.len() > 0 {
        let d = w.drop_last();
        assert(keys_distinct(d)) by {
            assert forall|i: int, j: int| 0 <= i < j < d.len() implies (#[trigger] d[i]).0 != (
            #[trigger] d[j]).0 by {
                assert(d[i] == w[i] && d[j] == w[j]);
            }
        }
        lemma_written(files, d);
        let f = written(files, w);
        assert forall|i: int| 0 <= i < w.len() implies file_text(f, (#[trigger] w[i]).0) == Some(
            w[i].1,
        ) by {
            if i < w.len() - 1 {
                assert(d[i] == w[i]);
                assert(w[i].0 != w[w.len() - 1].0);
            }
        }
        assert forall|k: Seq<char>| !write_keys(w).contains(k) implies #[trigger] file_text(f, k)
            == file_text(files, k) by {
            if write_keys(d).contains(k) {
                let q = choose|q: int| 0 <= q < write_keys(d).len() && write_keys(d)[q] == k;
                assert(write_keys(w)[q] == k);
            }
            assert(write_keys(w)[w.len() - 1] == w.last().0);
            assert(k != w.last().0);
            assert(file_text(written(files, d), k) == file_text(files, k));
        }
    }
}

/// A write under the path of one of the active mappings.
pub open spec fn from_mapping(x: (Seq<char>, Seq<char>), m: Seq<FileMapping>) -> bool {
    exists|j: int| 0 <= j < m.len() && mapping_active(m[j]) && x.0 == m[j].path@
}

pub open spec fn mappings_sound(m: Seq<FileMapping>) -> bool {
    &&& forall|i: int|
        0 <= i < m.len() && mapping_active(#[trigger] m[i]) ==> spec_checked_mapping(m[i].path@) is Ok
    &&& forall|i: int, j: int|
        0 <= i < j < m.len() && mapping_active(#[trigger] m[i]) && mapping_active(#[trigger] m[j])
            ==> ascii_lower(m[i].path@) != ascii_lower(m[j].path@)
}

proof fn lemma_from_mapping_shift(x: (Seq<char>, Seq<char>), m: Seq<FileMapping>)
    requires
        m.len() > 0,
        from_mapping(x, m.drop_first()),
    ensures
        from_mapping(x, m),
        exists|j: int| 1 <= j < m.len() && mapping_active(m[j]) && x.0 == m[j].path@,
{
    let d = m.drop_first();
    let j = choose|j: int| 0 <= j < d.len() && mapping_active(d[j]) && x.0 == d[j].path@;
    assert(d[j] == m[j + 1]);
}

proof fn lemma_mappings_sound_rest(m: Seq<FileMapping>)
    requires
        m.len() > 0,
        mappings_sound(m),
    ensures
        mappings_sound(m.drop_first()),
{
    let d = m.drop_first();
    assert forall|i: int| 0 <= i < d.len() && mapping_active(#[trigger] d[i]) implies spec_checked_mapping(
        d[i].path@,
    ) is Ok by {
        assert(d[i] == m[i + 1]);
    }
    assert forall|i: int, j: int|
        0 <= i < j < d.len() && mapping_active(#[trigger] d[i]) && mapping_active(#[trigger] d[j])
            implies ascii_lower(d[i].path@) != ascii_lower(d[j].path@) by {
        assert(d[i] == m[i + 1] && d[j] == m[j + 1]);
    }
}

/// The writes of sound mappings: one per active mapping, under its accepted path, no path twice.
proof fn lemma_mapping_writes(m: Seq<FileMapping>)
    requires
        mappings_sound(m),
    ensures
        mapping_writes(m) matches Ok(mw) && keys_distinct(mw) && (forall|i: int|
            0 <= i < mw.len() ==> from_mapping(#[trigger] mw[i], m)),
    decreases m.len(),
{
    if m.len() == 0 {
        assert(mapping_writes(m) == Ok::<_, Seq<char>>(Seq::<(Seq<char>, Seq<char>)>::empty()));
    } else {
        let d = m.drop_first();
        lemma_mappings_sound_rest(m);
        lemma_mapping_writes(d);
        let rest = mapping_writes(d)->Ok_0;
        assert forall|i: int| 0 <= i < rest.len() implies from_mapping(#[trigger] rest[i], m) by {
            lemma_from_mapping_shift(rest[i], m);
        }
        if mapping_active(m[0]) {
            assert(spec_checked_mapping(m[0].path@) == Ok::<Seq<char>, Seq<char>>(m[0].path@));
            let head = (m[0].path@, m[0].content@);
            let mw = seq![head] + rest;
            assert(mapping_writes(m) == Ok::<_, Seq<char>>(mw));
            assert(from_mapping(head, m));
            assert forall|i: int| 0 <= i < mw.len() implies from_mapping(#[trigger] mw[i], m) by {
                if i > 0 {
                    assert(mw[i] == rest[i - 1]);
                }
            }
            assert forall|j: int| 0 <= j < rest.len() implies (#[trigger] rest[j]).0 != head.0 by {
                lemma_from_mapping_shift(rest[j], m);
                let q = choose|q: int| 1 <= q < m.len() && mapping_active(m[q]) && rest[j].0 == m[q].path@;
                assert(ascii_lower(m[0].path@) != ascii_lower(m[q].path@));
            }
            assert forall|i: int, j: int| 0 <= i < j < mw.len() implies (#[trigger] mw[i]).0 != (
            #[trigger] mw[j]).0 by {
                assert(mw[j] == rest[j - 1]);
                if i > 0 {
                    assert(mw[i] == rest[i - 1]);
                }
            }
        } else {
            assert(mapping_writes(m) == mapping_writes(d));
        }
    }
}

/// The five files an apply writes for itself are five different files.
proof fn lemma_managed_files_differ()
    ensures
        "lua/menu/gmm_workshop.lua"@.len() == 25,
        "lua/menu/menu.lua"@.len() == 17,
        "cfg/addonnomount.txt"@.len() == 20,
        "cfg/gmm_active.cfg"@.len() == 18,
        "cfg/autoexec.cfg"@.len() == 16,
{
    reveal_strlit("lua/menu/gmm_workshop.lua");
    reveal_strlit("lua/menu/menu.lua");
    reveal_strlit("cfg/addonnomount.txt");
    reveal_strlit("cfg/gmm_active.cfg");
    reveal_strlit("cfg/autoexec.cfg");
}

/// A write of the Workshop side goes to the bridge script, the menu or the disabled-mods list.
pub open spec fn addon_file(k: Seq<char>) -> bool {
    k == "lua/menu/gmm_workshop.lua"@ || k == "lua/menu/menu.lua"@ || k == "cfg/addonnomount.txt"@
}

/// A write of the settings side goes to `gmm_active.cfg` or `autoexec.cfg`.
pub open spec fn settings_file(k: Seq<char>) -> bool {
    k == "cfg/gmm_active.cfg"@ || k == "cfg/autoexec.cfg"@
}

proof fn lemma_addon_shape(
    p: Profile,
    plan: Plan,
    menu: Option<Seq<char>>,
    menu_path: Seq<char>,
    nomount: Option<Seq<char>>,
    script: Seq<char>,
)
    requires
        addon_part(p, plan, menu, menu_path, nomount, script) is Ok,
    ensures
        addon_part(p, plan, menu, menu_path, nomount, script) matches Ok((aw, _)) && keys_distinct(aw)
            && forall|i: int| 0 <= i < aw.len() ==> addon_file((#[trigger] aw[i]).0),
{
    lemma_managed_files_differ();
}

proof fn lemma_settings_shape(p: Profile, autoexec: Seq<char>)
    requires
        settings_part(p, autoexec) is Ok,
    ensures
        settings_part(p, autoexec) matches Ok(sw) && keys_distinct(sw) && forall|i: int|
            0 <= i < sw.len() ==> settings_file((#[trigger] sw[i]).0),
{
    lemma_managed_files_differ();
}

/// Taking a block out of text that holds no first marker leaves the text as it is.
proof fn lemma_no_block(n: Seq<char>, begin: Seq<char>, end_marker: Seq<char>)
    requires
        absent(n, begin),
    ensures
        spec_without_managed_block(n, begin, end_marker) == Ok::<_, Seq<char>>(n),
{
    lemma_find_is(n, begin, -1);
}

/// The Workshop side of a second apply writes nothing new.
proof fn lemma_addon_again(
    p: Profile,
    plan: Plan,
    files: Map<Seq<char>, Seq<char>>,
    after: Map<Seq<char>, Seq<char>>,
    menu_path: Seq<char>,
    script: Seq<char>,
    aw: Seq<(Seq<char>, Seq<char>)>,
    an: Seq<Seq<char>>,
)
    requires
        addon_part(
            p,
            plan,
            file_text(files, "lua/menu/menu.lua"@),
            menu_path,
            file_text(files, "cfg/addonnomount.txt"@),
            script,
        ) == Ok::<_, Seq<char>>((aw, an)),
        one_block(file_text(files, "lua/menu/menu.lua"@), MENU_BEGIN@, MENU_END@),
        writes_nothing_new(after, aw),
        !write_keys(aw).contains("lua/menu/menu.lua"@) ==> file_text(after, "lua/menu/menu.lua"@)
            == file_text(files, "lua/menu/menu.lua"@),
        !write_keys(aw).contains("cfg/addonnomount.txt"@) ==> file_text(
            after,
            "cfg/addonnomount.txt"@,
        ) == file_text(files, "cfg/addonnomount.txt"@),
    ensures
        addon_part(
            p,
            plan,
            file_text(after, "lua/menu/menu.lua"@),
            menu_path,
            file_text(after, "cfg/addonnomount.txt"@),
            script,
        ) matches Ok((aw2, _)) && writes_nothing_new(after, aw2),
{
    lemma_managed_files_differ();
    lemma_markers();
    let k2 = "lua/menu/menu.lua"@;
    let k3 = "cfg/addonnomount.txt"@;
    let menu = file_text(files, k2);
    let nomount = file_text(files, k3);
    if !crate::config::manages_addons(p, plan) {
        if let Some(m) = menu {
            let n = spec_without_managed_block(m, MENU_BEGIN@, MENU_END@)->Ok_0;
            if n != m {
                assert(aw[0] == (k2, n));
            } else {
                assert(aw.len() == 0);
            }
            assert(file_text(after, k2) == Some(n));
            lemma_no_block(n, MENU_BEGIN@, MENU_END@);
        } else {
            assert(aw.len() == 0);
            assert(!write_keys(aw).contains(k2));
        }
    } else {
        let m = menu->Some_0;
        let n = spec_without_managed_block(m, MENU_BEGIN@, MENU_END@)->Ok_0;
        let next = crate::config::spec_menu_with_block(n);
        lemma_menu_stable(n);
        let wanted = crate::preview::item_ids(crate::preview::shown_items(p.workshop.items@));
        let w = seq![("lua/menu/gmm_workshop.lua"@, script)] + (if next != m {
            seq![(k2, next)]
        } else {
            seq![]
        });
        let counted = nomount matches Some(text) && crate::config::removed_count(
            crate::text::lines(text),
            wanted,
        ) > 0;
        if counted {
            assert(aw == w.push((k3, crate::config::nomount_output(nomount->Some_0, wanted))));
        } else {
            assert(aw == w);
        }
        assert(aw[0] == ("lua/menu/gmm_workshop.lua"@, script));
        if next != m {
            assert(aw[1] == (k2, next));
        } else {
            assert forall|i: int| 0 <= i < aw.len() implies write_keys(aw)[i] != k2 by {}
            assert(!write_keys(aw).contains(k2));
        }
        assert(file_text(after, k2) == Some(next));
        if counted {
            assert(aw[aw.len() - 1] == (k3, crate::config::nomount_output(nomount->Some_0, wanted)));
            lemma_nomount_stable(nomount->Some_0, wanted);
        } else {
            assert forall|i: int| 0 <= i < aw.len() implies write_keys(aw)[i] != k3 by {}
            assert(!write_keys(aw).contains(k3));
        }
        let aw2 = seq![("lua/menu/gmm_workshop.lua"@, script)];
        assert(addon_part(p, plan, file_text(after, k2), menu_path, file_text(after, k3), script)
            == Ok::<_, Seq<char>>((aw2, Seq::<Seq<char>>::empty())));
        assert(aw2[0] == aw[0]);
    }
}

/// The settings side of a second apply writes nothing new.
proof fn lemma_settings_again(
    p: Profile,
    files: Map<Seq<char>, Seq<char>>,
    after: Map<Seq<char>, Seq<char>>,
    sw: Seq<(Seq<char>, Seq<char>)>,
)
    requires
        settings_part(p, text_or_empty(file_text(files, "cfg/autoexec.cfg"@))) == Ok::<_, Seq<char>>(
            sw,
        ),
        one_block(file_text(files, "cfg/autoexec.cfg"@), BEGIN@, END@),
        writes_nothing_new(after, sw),
        !write_keys(sw).contains("cfg/autoexec.cfg"@) ==> file_text(after, "cfg/autoexec.cfg"@)
            == file_text(files, "cfg/autoexec.cfg"@),
    ensures
        settings_part(p, text_or_empty(file_text(after, "cfg/autoexec.cfg"@))) matches Ok(sw2)
            && writes_nothing_new(after, sw2),
{
    lemma_managed_files_differ();
    lemma_markers();
    let k4 = "cfg/gmm_active.cfg"@;
    let k5 = "cfg/autoexec.cfg"@;
    let a = text_or_empty(file_text(files, k5));
    let c = command_count(p);
    let next = spec_next_autoexec(a, c)->Ok_0;
    if file_text(files, k5) is None {
        assert(absent(a, BEGIN@)) by {
            assert forall|k: int| 0 <= k implies !crate::text::occurs_at(a, BEGIN@, k) by {}
        }
        lemma_no_block(a, BEGIN@, END@);
    }
    lemma_autoexec_stable(a, c);
    let head = if c > 0 {
        seq![(k4, crate::config::cfg_text(p))]
    } else {
        seq![]
    };
    if next != a {
        assert(sw == head + seq![(k5, next)]);
        assert(sw[sw.len() - 1] == (k5, next));
    } else {
        assert(sw == head);
        assert forall|i: int| 0 <= i < sw.len() implies write_keys(sw)[i] != k5 by {}
        assert(!write_keys(sw).contains(k5));
    }
    assert(text_or_empty(file_text(after, k5)) == next);
    assert(settings_part(p, next) == Ok::<_, Seq<char>>(head));
    assert forall|i: int| 0 <= i < head.len() implies file_text(after, (#[trigger] head[i]).0) == Some(
        head[i].1,
    ) by {
        assert(head[i] == sw[i]);
    }
}

/// Every element of a concatenation comes from one of its parts.
proof fn lemma_nothing_new_concat(
    after: Map<Seq<char>, Seq<char>>,
    a: Seq<(Seq<char>, Seq<char>)>,
    b: Seq<(Seq<char>, Seq<char>)>,
)
    requires
        writes_nothing_new(after, a),
        writes_nothing_new(after, b),
    ensures
        writes_nothing_new(after, a + b),
{
    assert forall|i: int| 0 <= i < (a + b).len() implies file_text(after, (#[trigger] (a + b)[i]).0)
        == Some((a + b)[i].1) by {
        if i < a.len() {
            assert((a + b)[i] == a[i]);
        } else {
            assert((a + b)[i] == b[i - a.len()]);
        }
    }
}

/// Applying a preset a second time changes no file: the config preview made from the files as
/// the first apply left them writes into each file only what it already holds. This holds for a
/// preset that passes validation, when `menu.lua` and `autoexec.cfg` held at most one managed
/// block each.
pub proof fn lemma_apply_again_changes_nothing(
    p: Profile,
    plan: Plan,
    files: Map<Seq<char>, Seq<char>>,
    menu_path: Seq<char>,
    script: Seq<char>,
)
    requires
        profile_sound(p),
        plan_for_files(p, plan, files, menu_path, script) is Ok,
        one_block(file_text(files, "lua/menu/menu.lua"@), MENU_BEGIN@, MENU_END@),
        one_block(file_text(files, "cfg/autoexec.cfg"@), BEGIN@, END@),
    ensures
        plan_for_files(
            p,
            plan,
            written(files, plan_for_files(p, plan, files, menu_path, script)->Ok_0.0),
            menu_path,
            script,
        ) matches Ok((w2, _)) && writes_nothing_new(
            written(files, plan_for_files(p, plan, files, menu_path, script)->Ok_0.0),
            w2,
        ),
{
    lemma_managed_files_differ();
    let k1 = "lua/menu/gmm_workshop.lua"@;
    let k2 = "lua/menu/menu.lua"@;
    let k3 = "cfg/addonnomount.txt"@;
    let k4 = "cfg/gmm_active.cfg"@;
    let k5 = "cfg/autoexec.cfg"@;
    let menu = file_text(files, k2);
    let nomount = file_text(files, k3);
    let autoexec = text_or_empty(file_text(files, k5));
    let (aw, an) = addon_part(p, plan, menu, menu_path, nomount, script)->Ok_0;
    let sw = settings_part(p, autoexec)->Ok_0;
    let m = p.file_mappings@;
    assert(mappings_sound(m));
    lemma_mapping_writes(m);
    let mw = if p.sync.settings {
        mapping_writes(m)->Ok_0
    } else {
        seq![]
    };
    let w = aw + sw + mw;
    assert(plan_for_files(p, plan, files, menu_path, script)->Ok_0.0 == w);
    lemma_addon_shape(p, plan, menu, menu_path, nomount, script);
    lemma_settings_shape(p, autoexec);
    assert forall|i: int| 0 <= i < mw.len() implies {
        let k = (#[trigger] mw[i]).0;
        k != k1 && k != k2 && k != k3 && k != k4 && k != k5
    } by {
        let j = choose|j: int| 0 <= j < m.len() && mapping_active(m[j]) && mw[i].0 == m[j].path@;
        lemma_mapped_path_not_managed(m[j].path@);
    }
    assert(keys_distinct(w)) by {
        assert forall|i: int, j: int| 0 <= i < j < w.len() implies (#[trigger] w[i]).0 != (
        #[trigger] w[j]).0 by {
            let la = aw.len() as int;
            let ls = sw.len() as int;
            if j < la {
                assert(w[i] == aw[i] && w[j] == aw[j]);
            } else if j < la + ls {
                assert(w[j] == sw[j - la]);
                if i < la {
                    assert(w[i] == aw[i]);
                    assert(addon_file(aw[i].0) && settings_file(sw[j - la].0));
                } else {
                    assert(w[i] == sw[i - la]);
                }
            } else {
                assert(w[j] == mw[j - la - ls]);
                if i < la {
                    assert(w[i] == aw[i]);
                    assert(addon_file(aw[i].0));
                } else if i < la + ls {
                    assert(w[i] == sw[i - la]);
                    assert(settings_file(sw[i - la].0));
                } else {
                    assert(w[i] == mw[i - la - ls]);
                }
            }
        }
    }
    let after = written(files, w);
    lemma_written(files, w);
    let la = aw.len() as int;
    let ls = sw.len() as int;
    assert forall|i: int| 0 <= i < aw.len() implies file_text(after, (#[trigger] aw[i]).0) == Some(
        aw[i].1,
    ) by {
        assert(w[i] == aw[i]);
    }
    assert forall|i: int| 0 <= i < sw.len() implies file_text(after, (#[trigger] sw[i]).0) == Some(
        sw[i].1,
    ) by {
        assert(w[la + i] == sw[i]);
    }
    assert forall|i: int| 0 <= i < mw.len() implies file_text(after, (#[trigger] mw[i]).0) == Some(
        mw[i].1,
    ) by {
        assert(w[la + ls + i] == mw[i]);
    }
    assert forall|k: Seq<char>|
        (k == k2 || k == k3 || k == k5) && !write_keys(aw).contains(k) && !write_keys(sw).contains(k)
            implies #[trigger] file_text(after, k) == file_text(files, k) by {
        if write_keys(w).contains(k) {
            let q = choose|q: int| 0 <= q < write_keys(w).len() && write_keys(w)[q] == k;
            if q < la {
                assert(write_keys(aw)[q] == k);
            } else if q < la + ls {
                assert(write_keys(sw)[q - la] == k);
            } else {
                assert(w[q] == mw[q - la - ls]);
            }
        }
    }
    assert(!write_keys(sw).contains(k2) && !write_keys(sw).contains(k3)) by {
        assert forall|i: int| 0 <= i < sw.len() implies write_keys(sw)[i] != k2 && write_keys(sw)[i]
            != k3 by {
            assert(settings_file(sw[i].0));
        }
    }
    assert(!write_keys(aw).contains(k5)) by {
        assert forall|i: int| 0 <= i < aw.len() implies write_keys(aw)[i] != k5 by {
            assert(addon_file(aw[i].0));
        }
    }
    lemma_addon_again(p, plan, files, after, menu_path, script, aw, an);
    lemma_settings_again(p, files, after, sw);
    let aw2 = addon_part(
        p,
        plan,
        file_text(after, k2),
        menu_path,
        file_text(after, k3),
        script,
    )->Ok_0.0;
    let sw2 = settings_part(p, text_or_empty(file_text(after, k5)))->Ok_0;
    lemma_nothing_new_concat(after, aw2, sw2);
    lemma_nothing_new_concat(after, aw2 + sw2, mw);
}

} // verus!
