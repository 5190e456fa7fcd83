//! Preset validation: bind keys, console names, values and mapped config paths.

use crate::model::{bind_active, mapping_active, setting_active, Bind, FileMapping, Profile, Setting, WorkshopItem};
use crate::text::{is_numeric, numeric, trim, ascii_lower, chars_equal, chars_of, lower_chars, push_all, push_str, split, split_chars, string_of};
use vstd::prelude::*;

verus! {

/// A character allowed in a bind key: printable ASCII other than `"`, `;` and `\`.
pub open spec fn key_char(c: char) -> bool {
    0x21 <= (c as u32) <= 0x7e && c != '"' && c != ';' && c != '\\'
}

pub open spec fn spec_valid_key(s: Seq<char>) -> bool {
    s.len() > 0 && forall|i: int| 0 <= i < s.len() ==> key_char(#[trigger] s[i])
}

pub open spec fn name_start(c: char) -> bool {
    ('A' <= c <= 'Z') || ('a' <= c <= 'z') || c == '_'
}

pub open spec fn name_char(c: char) -> bool {
    name_start(c) || ('0' <= c <= '9')
}

/// A console variable name: a letter or `_`, then letters, digits or `_`.
pub open spec fn spec_valid_name(s: Seq<char>) -> bool {
    s.len() > 0 && name_start(s[0]) && forall|i: int| 1 <= i < s.len() ==> name_char(#[trigger] s[i])
}

/// A character that cannot break out of a quoted config value.
pub open spec fn value_char(c: char) -> bool {
    c != '\r' && c != '\n' && c != '"' && c != '\\' && c != '\0'
}

pub open spec fn spec_safe_value(s: Seq<char>) -> bool {
    forall|i: int| 0 <= i < s.len() ==> value_char(#[trigger] s[i])
}

pub fn valid_key(value: &str) -> (r: bool)
    ensures
        r == spec_valid_key(value@),
{
    let v = chars_of(value);
    if v.len() == 0 {
        return false;
    }
    let mut i: usize = 0;
    while i < v.len()
        invariant
            i <= v.len(),
            v@ == value@,
            forall|k: int| 0 <= k < i ==> key_char(#[trigger] v@[k]),
        decreases v.len() - i,
    {
        let c = v[i];
        let u = c as u32;
        if !(0x21 <= u && u <= 0x7e && c != '"' && c != ';' && c != '\\') {
            assert(!key_char(v@[i as int]));
            return false;
        }
        i = i + 1;
    }
    true
}

pub fn valid_name(value: &str) -> (r: bool)
    ensures
        r == spec_valid_name(value@),
{
    let v = chars_of(value);
    if v.len() == 0 {
        return false;
    }
    let c0 = v[0];
    if !(('A' <= c0 && c0 <= 'Z') || ('a' <= c0 && c0 <= 'z') || c0 == '_') {
        return false;
    }
    let mut i: usize = 1;
    while i < v.len()
        invariant
            1 <= i <= v.len(),
            v@ == value@,
            forall|k: int| 1 <= k < i ==> name_char(#[trigger] v@[k]),
        decreases v.len() - i,
    {
        let c = v[i];
        if !(('A' <= c && c <= 'Z') || ('a' <= c && c <= 'z') || c == '_' || ('0' <= c && c
            <= '9')) {
            assert(!name_char(v@[i as int]));
            return false;
        }
        i = i + 1;
    }
    true
}

pub fn safe_value(value: &str) -> (r: bool)
    ensures
        r == spec_safe_value(value@),
{
    let v = chars_of(value);
    let mut i: usize = 0;
    while i < v.len()
        invariant
            i <= v.len(),
            v@ == value@,
            forall|k: int| 0 <= k < i ==> value_char(#[trigger] v@[k]),
        decreases v.len() - i,
    {
        let c = v[i];
        if c == '\r' || c == '\n' || c == '"' || c == '\\' || c == '\0' {
            assert(!value_char(v@[i as int]));
            return false;
        }
        i = i + 1;
    }
    true
}

} // verus!

verus! {

/// The plain-name components among path pieces: empty pieces and `.` dropped.
pub open spec fn normal_parts(p: Seq<Seq<char>>) -> Seq<Seq<char>>
    decreases p.len(),
{
    if p.len() == 0 {
        seq![]
    } else {
        let rest = normal_parts(p.drop_last());
        if p.last().len() > 0 && p.last() != seq!['.'] {
            rest.push(p.last())
        } else {
            rest
        }
    }
}

/// `\` read as `/`: a Windows path separates its components at either character.
pub open spec fn forward_slashes(value: Seq<char>) -> Seq<char> {
    value.map_values(|c: char| if c == '\\' { '/' } else { c })
}

/// The pieces of a path between its separators, `/` or `\`.
pub open spec fn path_pieces(value: Seq<char>) -> Seq<Seq<char>> {
    split(forward_slashes(value), '/')
}

/// A drive prefix such as `C:` at the start of a Windows path.
pub open spec fn drive_prefix(value: Seq<char>) -> bool {
    value.len() >= 2 && value[1] == ':' && (('A' <= value[0] <= 'Z') || ('a' <= value[0] <= 'z'))
}

/// The path has a component other than a plain name under Windows `Path::components`:
/// a root (a leading separator), a drive prefix, a leading `.`, or a `..` anywhere.
pub open spec fn leaves_relative(value: Seq<char>) -> bool {
    let p = path_pieces(value);
    ||| (value.len() > 0 && (value[0] == '/' || value[0] == '\\'))
    ||| drive_prefix(value)
    ||| p[0] == seq!['.']
    ||| p.contains(seq!['.', '.'])
}

/// Files the manager writes itself.
pub open spec fn manager_owned(value: Seq<char>) -> bool {
    let l = ascii_lower(value);
    ||| l == "cfg/config.cfg"@
    ||| l == "cfg/autoexec.cfg"@
    ||| l == "cfg/addonnomount.txt"@
    ||| l == "cfg/gmm_active.cfg"@
    ||| l == "settings/addonpresets.txt"@
}

/// A mapped config path must be relative, stay inside `cfg/`, `data/` or `settings/`, and not
/// be one of the files the manager owns.
pub open spec fn spec_checked_mapping(value: Seq<char>) -> Result<Seq<char>, Seq<char>> {
    let n = normal_parts(path_pieces(value));
    if leaves_relative(value) {
        Err("Unsafe config path: "@ + value)
    } else if n.len() < 2 || !(n[0] == "cfg"@ || n[0] == "data"@ || n[0] == "settings"@) {
        Err("Config path must be under cfg/, data/, or settings/: "@ + value)
    } else if manager_owned(value) {
        Err("The manager owns this path: "@ + value)
    } else {
        Ok(value)
    }
}

pub open spec fn string_result(r: Result<String, String>) -> Result<Seq<char>, Seq<char>> {
    match r {
        Ok(s) => Ok(s@),
        Err(e) => Err(e@),
    }
}

fn message(prefix: &str, value: &[char]) -> (r: String)
    ensures
        r@ == prefix@ + value@,
{
    let mut m: Vec<char> = Vec::new();
    push_str(&mut m, prefix);
    push_all(&mut m, value);
    string_of(&m)
}

proof fn lemma_dots()
    ensures
        "."@ == seq!['.'],
        ".."@ == seq!['.', '.'],
{
    reveal_strlit(".");
    reveal_strlit("..");
    assert("."@ =~= seq!['.']);
    assert(".."@ =~= seq!['.', '.']);
}

fn equals_literal(v: &[char], lit: &str) -> (r: bool)
    ensures
        r == (v@ == lit@),
{
    chars_equal(v, &chars_of(lit))
}

/// The plain-name parts of `pieces`.
fn normal_parts_of(pieces: &Vec<Vec<char>>) -> (r: Vec<Vec<char>>)
    ensures
        r@.map_values(|q: Vec<char>| q@) == normal_parts(pieces@.map_values(|q: Vec<char>| q@)),
{
    let ghost p = pieces@.map_values(|q: Vec<char>| q@);
    let mut r: Vec<Vec<char>> = Vec::new();
    let mut i: usize = 0;
    while i < pieces.len()
        invariant
            i <= pieces@.len(),
            p == pieces@.map_values(|q: Vec<char>| q@),
            r@.map_values(|q: Vec<char>| q@) == normal_parts(p.take(i as int)),
        decreases pieces.len() - i,
    {
        assert(p.take(i + 1).drop_last() =~= p.take(i as int));
        assert(p.take(i + 1).last() == pieces@[i as int]@);
        let piece = &pieces[i];
        let keep = piece.len() > 0 && !equals_literal(piece, ".");
        proof {
            lemma_dots();
        }
        if keep {
            let ghost before = r@;
            r.push(copy_vec(piece));
            assert(r@.map_values(|q: Vec<char>| q@) =~= before.map_values(|q: Vec<char>| q@).push(
                piece@,
            ));
        }
        i = i + 1;
    }
    assert(p.take(pieces@.len() as int) =~= p);
    r
}

fn copy_vec(v: &Vec<char>) -> (r: Vec<char>)
    ensures
        r@ == v@,
{
    crate::text::copy_chars(v.as_slice())
}

/// The path with each `\\` turned into `/`.
fn forward_slash_chars(v: &[char]) -> (r: Vec<char>)
    ensures
        r@ == forward_slashes(v@),
{
    let mut r: Vec<char> = Vec::new();
    let mut i: usize = 0;
    while i < v.len()
        invariant
            i <= v@.len(),
            r@ == forward_slashes(v@.take(i as int)),
        decreases v.len() - i,
    {
        let c = v[i];
        r.push(if c == '\\' { '/' } else { c });
        assert(forward_slashes(v@.take(i + 1)) =~= forward_slashes(v@.take(i as int)).push(
            if c == '\\' { '/' } else { c },
        ));
        i = i + 1;
    }
    assert(v@.take(v@.len() as int) =~= v@);
    r
}

/// Whether a path, split at `/` and `\\`, has a root, a drive prefix, a leading `.` or a `..`
/// component.
pub fn leaves_relative_path(value: &str) -> (r: bool)
    ensures
        r == leaves_relative(value@),
{
    let v = chars_of(value);
    let w = forward_slash_chars(&v);
    let pieces = split_chars(&w, '/');
    let ghost p = path_pieces(value@);
    proof {
        crate::text::lemma_split_nonempty(forward_slashes(value@), '/');
        lemma_dots();
    }
    assert(pieces@.len() == p.len());
    let rooted = v.len() > 0 && (v[0] == '/' || v[0] == '\\');
    let drive = v.len() >= 2 && v[1] == ':' && (('A' <= v[0] && v[0] <= 'Z') || ('a' <= v[0]
        && v[0] <= 'z'));
    let mut leaves = rooted || drive || equals_literal(&pieces[0], ".");
    assert(pieces@[0]@ == p[0]);
    let mut i: usize = 0;
    while i < pieces.len() && !leaves
        invariant
            i <= pieces@.len(),
            v@ == value@,
            p == path_pieces(value@),
            "."@ == seq!['.'],
            ".."@ == seq!['.', '.'],
            p == pieces@.map_values(|q: Vec<char>| q@),
            leaves ==> leaves_relative(value@),
            !leaves ==> !(value@.len() > 0 && (value@[0] == '/' || value@[0] == '\\'))
                && !drive_prefix(value@) && p[0] != seq!['.'],
            !leaves ==> forall|k: int| 0 <= k < i ==> p[k] != seq!['.', '.'],
        decreases pieces.len() - i,
    {
        assert(pieces@[i as int]@ == p[i as int]);
        if equals_literal(&pieces[i], "..") {
            assert(p[i as int] == seq!['.', '.']);
            assert(p.contains(seq!['.', '.']));
            leaves = true;
        }
        i = i + 1;
    }
    if leaves {
        return true;
    }
    proof {
        if p.contains(seq!['.', '.']) {
            let k = choose|k: int| 0 <= k < p.len() && p[k] == seq!['.', '.'];
            assert(false);
        }
    }
    false
}

/// Checks a mapped config path; `Ok` carries the path itself, which then has no `..` piece and
/// no leading `.` piece under either separator.
pub fn checked_mapping(value: &str) -> (r: Result<String, String>)
    ensures
        string_result(r) == spec_checked_mapping(value@),
        r is Ok ==> !path_pieces(value@).contains(seq!['.', '.']) && path_pieces(value@)[0]
            != seq!['.'],
        r is Ok ==> !(value@.len() > 0 && (value@[0] == '/' || value@[0] == '\\')) && !drive_prefix(value@),
{
    let v = chars_of(value);
    let w = forward_slash_chars(&v);
    let pieces = split_chars(&w, '/');
    let ghost p = path_pieces(value@);
    proof {
        crate::text::lemma_split_nonempty(forward_slashes(value@), '/');
        lemma_dots();
    }
    assert(pieces@.len() == p.len());
    if leaves_relative_path(value) {
        return Err(message("Unsafe config path: ", &v));
    }
    let normal = normal_parts_of(&pieces);
    let ghost n = normal_parts(p);
    assert(normal@.len() == n.len());
    let root_ok = normal.len() >= 2 && (equals_literal(&normal[0], "cfg") || equals_literal(
        &normal[0],
        "data",
    ) || equals_literal(&normal[0], "settings"));
    if !root_ok {
        assert(normal.len() >= 2 ==> normal@[0]@ == n[0]);
        return Err(message("Config path must be under cfg/, data/, or settings/: ", &v));
    }
    assert(normal@[0]@ == n[0]);
    let l = lower_chars(&v);
    let owned = equals_literal(&l, "cfg/config.cfg") || equals_literal(&l, "cfg/autoexec.cfg")
        || equals_literal(&l, "cfg/addonnomount.txt") || equals_literal(&l, "cfg/gmm_active.cfg")
        || equals_literal(&l, "settings/addonpresets.txt");
    if owned {
        return Err(message("The manager owns this path: ", &v));
    }
    Ok(string_of(&v))
}

} // verus!

verus! {

pub open spec fn views(v: Seq<Vec<char>>) -> Seq<Seq<char>> {
    v.map_values(|q: Vec<char>| q@)
}

pub fn contains_chars(seen: &Vec<Vec<char>>, x: &[char]) -> (r: bool)
    ensures
        r == views(seen@).contains(x@),
{
    let mut i: usize = 0;
    while i < seen.len()
        invariant
            i <= seen@.len(),
            forall|k: int| 0 <= k < i ==> seen@[k]@ != x@,
        decreases seen.len() - i,
    {
        if chars_equal(&seen[i], x) {
            assert(views(seen@)[i as int] == x@);
            return true;
        }
        i = i + 1;
    }
    proof {
        if views(seen@).contains(x@) {
            let k = choose|k: int| 0 <= k < views(seen@).len() && views(seen@)[k] == x@;
            assert(seen@[k]@ == x@);
        }
    }
    false
}

pub open spec fn bind_message(b: Bind) -> Seq<char> {
    if trim(b.key@).len() == 0 {
        "Bind \""@ + b.command@ + "\" needs a key."@
    } else {
        "Bind for "@ + b.key@ + " has an invalid key or command."@
    }
}

/// The first problem among the binds from `i` on, given the lowercased keys already taken.
pub open spec fn binds_error(b: Seq<Bind>, i: int, seen: Seq<Seq<char>>) -> Option<Seq<char>>
    decreases b.len() - i,
{
    if i < 0 || i >= b.len() {
        None
    } else if !bind_active(b[i]) {
        binds_error(b, i + 1, seen)
    } else if !spec_valid_key(b[i].key@) || !spec_safe_value(b[i].command@) {
        Some(bind_message(b[i]))
    } else if seen.contains(ascii_lower(b[i].key@)) {
        Some("Duplicate synced key: "@ + b[i].key@)
    } else {
        binds_error(b, i + 1, seen.push(ascii_lower(b[i].key@)))
    }
}

fn check_binds(binds: &Vec<Bind>) -> (r: Result<(), String>)
    ensures
        match r {
            Ok(_) => binds_error(binds@, 0, seq![]) is None,
            Err(e) => binds_error(binds@, 0, seq![]) == Some(e@),
        },
{
    let mut seen: Vec<Vec<char>> = Vec::new();
    let mut i: usize = 0;
    assert(views(seen@) =~= seq![]);
    while i < binds.len()
        invariant
            i <= binds@.len(),
            binds_error(binds@, 0, seq![]) == binds_error(binds@, i as int, views(seen@)),
        decreases binds.len() - i,
    {
        let bind = &binds[i];
        if bind.active() {
            if !valid_key(&bind.key) || !safe_value(&bind.command) {
                let mut m: Vec<char> = Vec::new();
                if crate::text::is_blank(&bind.key) {
                    push_str(&mut m, "Bind \"");
                    push_str(&mut m, &bind.command);
                    push_str(&mut m, "\" needs a key.");
                } else {
                    push_str(&mut m, "Bind for ");
                    push_str(&mut m, &bind.key);
                    push_str(&mut m, " has an invalid key or command.");
                }
                return Err(string_of(&m));
            }
            let key = lower_chars(&chars_of(&bind.key));
            if contains_chars(&seen, &key) {
                let mut m: Vec<char> = Vec::new();
                push_str(&mut m, "Duplicate synced key: ");
                push_str(&mut m, &bind.key);
                return Err(string_of(&m));
            }
            let ghost before = seen@;
            seen.push(key);
            assert(views(seen@) =~= views(before).push(ascii_lower(bind.key@)));
        }
        i = i + 1;
    }
    Ok(())
}

pub open spec fn setting_message(s: Setting) -> Seq<char> {
    "Setting \""@ + s.name@ + "\" has an invalid name or value."@
}

/// The first problem among the console settings from `i` on.
pub open spec fn settings_error(b: Seq<Setting>, i: int, seen: Seq<Seq<char>>) -> Option<
    Seq<char>,
>
    decreases b.len() - i,
{
    if i < 0 || i >= b.len() {
        None
    } else if !setting_active(b[i]) {
        settings_error(b, i + 1, seen)
    } else if !spec_valid_name(b[i].name@) || !spec_safe_value(b[i].value@) {
        Some(setting_message(b[i]))
    } else if seen.contains(ascii_lower(b[i].name@)) {
        Some("Duplicate synced setting: "@ + b[i].name@)
    } else {
        settings_error(b, i + 1, seen.push(ascii_lower(b[i].name@)))
    }
}

fn check_settings(settings: &Vec<Setting>) -> (r: Result<(), String>)
    ensures
        match r {
            Ok(_) => settings_error(settings@, 0, seq![]) is None,
            Err(e) => settings_error(settings@, 0, seq![]) == Some(e@),
        },
{
    let mut seen: Vec<Vec<char>> = Vec::new();
    let mut i: usize = 0;
    assert(views(seen@) =~= seq![]);
    while i < settings.len()
        invariant
            i <= settings@.len(),
            settings_error(settings@, 0, seq![]) == settings_error(
                settings@,
                i as int,
                views(seen@),
            ),
        decreases settings.len() - i,
    {
        let setting = &settings[i];
        if setting.active() {
            if !valid_name(&setting.name) || !safe_value(&setting.value) {
                let mut m: Vec<char> = Vec::new();
                push_str(&mut m, "Setting \"");
                push_str(&mut m, &setting.name);
                push_str(&mut m, "\" has an invalid name or value.");
                return Err(string_of(&m));
            }
            let name = lower_chars(&chars_of(&setting.name));
            if contains_chars(&seen, &name) {
                let mut m: Vec<char> = Vec::new();
                push_str(&mut m, "Duplicate synced setting: ");
                push_str(&mut m, &setting.name);
                return Err(string_of(&m));
            }
            let ghost before = seen@;
            seen.push(name);
            assert(views(seen@) =~= views(before).push(ascii_lower(setting.name@)));
        }
        i = i + 1;
    }
    Ok(())
}

} // verus!

verus! {

/// The first Workshop item from `i` on whose ID is not numeric.
pub open spec fn items_error(items: Seq<WorkshopItem>, i: int) -> Option<Seq<char>>
    decreases items.len() - i,
{
    if i < 0 || i >= items.len() {
        None
    } else if !is_numeric(items[i].id@) {
        Some("Invalid Workshop ID: "@ + items[i].id@)
    } else {
        items_error(items, i + 1)
    }
}

/// The first problem among the mapped files from `i` on.
pub open spec fn mappings_error(m: Seq<FileMapping>, i: int, seen: Seq<Seq<char>>) -> Option<
    Seq<char>,
>
    decreases m.len() - i,
{
    if i < 0 || i >= m.len() {
        None
    } else if !mapping_active(m[i]) {
        mappings_error(m, i + 1, seen)
    } else if spec_checked_mapping(m[i].path@) is Err {
        Some(spec_checked_mapping(m[i].path@)->Err_0)
    } else if seen.contains(ascii_lower(m[i].path@)) {
        Some("Duplicate synced config path: "@ + m[i].path@)
    } else {
        mappings_error(m, i + 1, seen.push(ascii_lower(m[i].path@)))
    }
}

pub open spec fn id_char(c: char) -> bool {
    ('a' <= c <= 'z') || ('0' <= c <= '9') || c == '-'
}

/// A preset ID: lowercase letters, digits and hyphens, at least one.
pub open spec fn spec_valid_id(s: Seq<char>) -> bool {
    s.len() > 0 && forall|i: int| 0 <= i < s.len() ==> id_char(#[trigger] s[i])
}

/// The first problem with a preset, in the order the checks run.
pub open spec fn profile_error(p: Profile) -> Option<Seq<char>> {
    if p.schema_version != 1 {
        Some("Unsupported profile schema version."@)
    } else if !spec_valid_id(p.id@) {
        Some("Profile ID must contain lowercase letters, digits, or hyphens."@)
    } else if trim(p.name@).len() == 0 {
        Some("Profile needs a name."@)
    } else if binds_error(p.binds@, 0, seq![]) is Some {
        binds_error(p.binds@, 0, seq![])
    } else if settings_error(p.convars@, 0, seq![]) is Some {
        settings_error(p.convars@, 0, seq![])
    } else if items_error(p.workshop.items@, 0) is Some {
        items_error(p.workshop.items@, 0)
    } else {
        mappings_error(p.file_mappings@, 0, seq![])
    }
}

fn check_items(items: &Vec<WorkshopItem>) -> (r: Result<(), String>)
    ensures
        match r {
            Ok(_) => items_error(items@, 0) is None,
            Err(e) => items_error(items@, 0) == Some(e@),
        },
{
    let mut i: usize = 0;
    while i < items.len()
        invariant
            i <= items@.len(),
            items_error(items@, 0) == items_error(items@, i as int),
        decreases items.len() - i,
    {
        if !numeric(&items[i].id) {
            let mut m: Vec<char> = Vec::new();
            push_str(&mut m, "Invalid Workshop ID: ");
            push_str(&mut m, &items[i].id);
            return Err(string_of(&m));
        }
        i = i + 1;
    }
    Ok(())
}

fn check_mappings(files: &Vec<FileMapping>) -> (r: Result<(), String>)
    ensures
        match r {
            Ok(_) => mappings_error(files@, 0, seq![]) is None,
            Err(e) => mappings_error(files@, 0, seq![]) == Some(e@),
        },
{
    let mut seen: Vec<Vec<char>> = Vec::new();
    let mut i: usize = 0;
    assert(views(seen@) =~= seq![]);
    while i < files.len()
        invariant
            i <= files@.len(),
            mappings_error(files@, 0, seq![]) == mappings_error(files@, i as int, views(seen@)),
        decreases files.len() - i,
    {
        let file = &files[i];
        if file.active() {
            match checked_mapping(&file.path) {
                Err(e) => {
                    return Err(e);
                },
                Ok(_) => {},
            }
            let path = lower_chars(&chars_of(&file.path));
            if contains_chars(&seen, &path) {
                let mut m: Vec<char> = Vec::new();
                push_str(&mut m, "Duplicate synced config path: ");
                push_str(&mut m, &file.path);
                return Err(string_of(&m));
            }
            let ghost before = seen@;
            seen.push(path);
            assert(views(seen@) =~= views(before).push(ascii_lower(file.path@)));
        }
        i = i + 1;
    }
    Ok(())
}

fn valid_id(id: &str) -> (r: bool)
    ensures
        r == spec_valid_id(id@),
{
    let v = chars_of(id);
    if v.len() == 0 {
        return false;
    }
    let mut i: usize = 0;
    while i < v.len()
        invariant
            i <= v.len(),
            v@ == id@,
            forall|k: int| 0 <= k < i ==> id_char(#[trigger] v@[k]),
        decreases v.len() - i,
    {
        let c = v[i];
        if !(('a' <= c && c <= 'z') || ('0' <= c && c <= '9') || c == '-') {
            assert(!id_char(v@[i as int]));
            return false;
        }
        i = i + 1;
    }
    true
}

/// Checks a preset before it is saved, shared or applied; the error names the first problem.
pub fn validate_profile(profile: &Profile) -> (r: Result<(), String>)
    ensures
        match r {
            Ok(_) => profile_error(*profile) is None,
            Err(e) => profile_error(*profile) == Some(e@),
        },
        r is Ok ==> profile_sound(*profile),
{
    if profile.schema_version != 1 {
        return Err(String::from_str("Unsupported profile schema version."));
    }
    if !valid_id(&profile.id) {
        return Err(
            String::from_str("Profile ID must contain lowercase letters, digits, or hyphens."),
        );
    }
    if crate::text::is_blank(&profile.name) {
        return Err(String::from_str("Profile needs a name."));
    }
    check_binds(&profile.binds)?;
    check_settings(&profile.convars)?;
    check_items(&profile.workshop.items)?;
    check_mappings(&profile.file_mappings)?;
    proof {
        lemma_profile_sound(*profile);
    }
    Ok(())
}

} // verus!

verus! {

/// What a validated preset guarantees: every active row is well formed and no two active rows
/// share a key, a setting name or a mapped path (ASCII case ignored).
pub open spec fn profile_sound(p: Profile) -> bool {
    let b = p.binds@;
    let s = p.convars@;
    let m = p.file_mappings@;
    &&& p.schema_version == 1
    &&& spec_valid_id(p.id@)
    &&& trim(p.name@).len() > 0
    &&& forall|i: int|
        0 <= i < b.len() && bind_active(#[trigger] b[i]) ==> spec_valid_key(b[i].key@)
            && spec_safe_value(b[i].command@)
    &&& forall|i: int, j: int|
        0 <= i < j < b.len() && bind_active(#[trigger] b[i]) && bind_active(#[trigger] b[j])
            ==> ascii_lower(b[i].key@) != ascii_lower(b[j].key@)
    &&& forall|i: int|
        0 <= i < s.len() && setting_active(#[trigger] s[i]) ==> spec_valid_name(s[i].name@)
            && spec_safe_value(s[i].value@)
    &&& forall|i: int, j: int|
        0 <= i < j < s.len() && setting_active(#[trigger] s[i]) && setting_active(#[trigger] s[j])
            ==> ascii_lower(s[i].name@) != ascii_lower(s[j].name@)
    &&& forall|i: int|
        0 <= i < p.workshop.items@.len() ==> is_numeric(#[trigger] p.workshop.items@[i].id@)
    &&& forall|i: int|
        0 <= i < m.len() && mapping_active(#[trigger] m[i]) ==> spec_checked_mapping(m[i].path@) is Ok
    &&& forall|i: int, j: int|
        0 <= i < j < m.len() && mapping_active(#[trigger] m[i]) && mapping_active(#[trigger] m[j])
            ==> ascii_lower(m[i].path@) != ascii_lower(m[j].path@)
}

proof fn lemma_binds_sound(b: Seq<Bind>, i: int, seen: Seq<Seq<char>>)
    requires
        0 <= i,
        binds_error(b, i, seen) is None,
    ensures
        forall|k: int|
            i <= k < b.len() && bind_active(#[trigger] b[k]) ==> spec_valid_key(b[k].key@)
                && spec_safe_value(b[k].command@) && !seen.contains(ascii_lower(b[k].key@)),
        forall|k: int, j: int|
            i <= k < j < b.len() && bind_active(#[trigger] b[k]) && bind_active(#[trigger] b[j])
                ==> ascii_lower(b[k].key@) != ascii_lower(b[j].key@),
    decreases b.len() - i,
{
    if i < b.len() {
        if !bind_active(b[i]) {
            lemma_binds_sound(b, i + 1, seen);
        } else {
            let l = ascii_lower(b[i].key@);
            lemma_binds_sound(b, i + 1, seen.push(l));
            assert forall|k: int| i < k < b.len() && bind_active(#[trigger] b[k]) implies !seen.contains(
                ascii_lower(b[k].key@),
            ) && ascii_lower(b[k].key@) != l by {
                assert(!seen.push(l).contains(ascii_lower(b[k].key@)));
                if seen.contains(ascii_lower(b[k].key@)) {
                    let w = choose|w: int| 0 <= w < seen.len() && seen[w] == ascii_lower(b[k].key@);
                    assert(seen.push(l)[w] == seen[w]);
                }
                assert(seen.push(l)[seen.len() as int] == l);
            }
        }
    }
}

/// A bind key is valid exactly when it is non-empty and each of its characters is printable
/// ASCII (0x21 to 0x7e) other than a double quote, a semicolon and a backslash. So keys made of
/// ASCII letters and digits, such as `1`, `F1` or `MOUSE4`, are valid, and a key with a space, a
/// quote, a semicolon, a backslash or a character beyond ASCII is not.
pub proof fn lemma_valid_key_chars(key: Seq<char>)
    ensures
        spec_valid_key(key) <==> (key.len() > 0 && forall|i: int|
            0 <= i < key.len() ==> 0x21 <= (#[trigger] key[i] as u32) <= 0x7e && key[i] != '"'
                && key[i] != ';' && key[i] != '\\'),
        key.len() > 0 && (forall|i: int|
            0 <= i < key.len() ==> {
                let u = #[trigger] key[i] as u32;
                (0x30 <= u <= 0x39) || (0x41 <= u <= 0x5a) || (0x61 <= u <= 0x7a)
            }) ==> spec_valid_key(key),
{
    if key.len() > 0 && (forall|i: int|
        0 <= i < key.len() ==> {
            let u = #[trigger] key[i] as u32;
            (0x30 <= u <= 0x39) || (0x41 <= u <= 0x5a) || (0x61 <= u <= 0x7a)
        }) {
        assert forall|i: int| 0 <= i < key.len() implies key_char(#[trigger] key[i]) by {
            let u = key[i] as u32;
            assert(('"' as u32) == 0x22 && (';' as u32) == 0x3b && ('\\' as u32) == 0x5c);
            assert((0x30 <= u <= 0x39) || (0x41 <= u <= 0x5a) || (0x61 <= u <= 0x7a));
        }
    }
}

/// A console variable name is valid exactly when it is non-empty, starts with an ASCII letter or
/// `_`, and goes on with ASCII letters, digits or `_`; so `sensitivity` and `cl_fov2` are valid,
/// and `2fast`, `a-b` or `a b` are not.
pub proof fn lemma_valid_name_chars(name: Seq<char>)
    ensures
        spec_valid_name(name) <==> (name.len() > 0 && forall|i: int|
            0 <= i < name.len() ==> {
                let c = #[trigger] name[i];
                ||| ('A' <= c <= 'Z')
                ||| ('a' <= c <= 'z')
                ||| c == '_'
                ||| (i > 0 && '0' <= c <= '9')
            }),
{
}

/// A value is safe to write between quotes exactly when it holds no carriage return, line
/// feed, double quote, backslash or NUL.
pub proof fn lemma_safe_value_chars(value: Seq<char>)
    ensures
        spec_safe_value(value) <==> forall|i: int|
            0 <= i < value.len() ==> {
                let c = #[trigger] value[i];
                c != '\r' && c != '\n' && c != '"' && c != '\\' && c != '\0'
            },
{
}

proof fn lemma_binds_accepted(b: Seq<Bind>, i: int, seen: Seq<Seq<char>>)
    requires
        0 <= i,
        forall|k: int|
            i <= k < b.len() && bind_active(#[trigger] b[k]) ==> spec_valid_key(b[k].key@)
                && spec_safe_value(b[k].command@) && !seen.contains(ascii_lower(b[k].key@)),
        forall|k: int, j: int|
            i <= k < j < b.len() && bind_active(#[trigger] b[k]) && bind_active(#[trigger] b[j])
                ==> ascii_lower(b[k].key@) != ascii_lower(b[j].key@),
    ensures
        binds_error(b, i, seen) is None,
    decreases b.len() - i,
{
    if i < b.len() {
        if !bind_active(b[i]) {
            lemma_binds_accepted(b, i + 1, seen);
        } else {
            let l = ascii_lower(b[i].key@);
            assert forall|k: int| i + 1 <= k < b.len() && bind_active(#[trigger] b[k]) implies !seen.push(
                l,
            ).contains(ascii_lower(b[k].key@)) by {
                if seen.push(l).contains(ascii_lower(b[k].key@)) {
                    let w = choose|w: int|
                        0 <= w < seen.push(l).len() && seen.push(l)[w] == ascii_lower(b[k].key@);
                    if w < seen.len() {
                        assert(seen[w] == ascii_lower(b[k].key@));
                    }
                }
            }
            lemma_binds_accepted(b, i + 1, seen.push(l));
        }
    }
}

/// A preset's binds pass validation exactly when every synced bind has a key that is non-empty
/// printable ASCII other than `"`, `;` and `\`, a command without a line break, `"`, `\` or NUL,
/// and no two synced binds have keys that are equal up to ASCII case.
pub proof fn lemma_binds_valid(b: Seq<Bind>)
    ensures
        binds_error(b, 0, seq![]) is None <==> ({
            &&& forall|k: int|
                0 <= k < b.len() && bind_active(#[trigger] b[k]) ==> {
                    let key = b[k].key@;
                    let cmd = b[k].command@;
                    &&& key.len() > 0
                    &&& forall|i: int|
                        0 <= i < key.len() ==> 0x21 <= (#[trigger] key[i] as u32) <= 0x7e && key[i]
                            != '"' && key[i] != ';' && key[i] != '\\'
                    &&& forall|i: int|
                        0 <= i < cmd.len() ==> #[trigger] cmd[i] != '\r' && cmd[i] != '\n' && cmd[i]
                            != '"' && cmd[i] != '\\' && cmd[i] != '\0'
                }
            &&& forall|k: int, j: int|
                0 <= k < j < b.len() && bind_active(#[trigger] b[k]) && bind_active(#[trigger] b[j])
                    ==> ascii_lower(b[k].key@) != ascii_lower(b[j].key@)
        }),
{
    assert forall|k: int| 0 <= k < b.len() && bind_active(#[trigger] b[k]) implies (spec_valid_key(
        b[k].key@,
    ) <==> (b[k].key@.len() > 0 && forall|i: int|
        0 <= i < b[k].key@.len() ==> 0x21 <= (#[trigger] b[k].key@[i] as u32) <= 0x7e && b[k].key@[i]
            != '"' && b[k].key@[i] != ';' && b[k].key@[i] != '\\')) by {
        lemma_valid_key_chars(b[k].key@);
    }
    if binds_error(b, 0, seq![]) is None {
        lemma_binds_sound(b, 0, seq![]);
    } else {
        let cond = forall|k: int|
            0 <= k < b.len() && bind_active(#[trigger] b[k]) ==> spec_valid_key(b[k].key@)
                && spec_safe_value(b[k].command@);
        if cond && forall|k: int, j: int|
            0 <= k < j < b.len() && bind_active(#[trigger] b[k]) && bind_active(#[trigger] b[j])
                ==> ascii_lower(b[k].key@) != ascii_lower(b[j].key@) {
            lemma_binds_accepted(b, 0, seq![]);
        }
    }
}

proof fn lemma_settings_sound(b: Seq<Setting>, i: int, seen: Seq<Seq<char>>)
    requires
        0 <= i,
        settings_error(b, i, seen) is None,
    ensures
        forall|k: int|
            i <= k < b.len() && setting_active(#[trigger] b[k]) ==> spec_valid_name(b[k].name@)
                && spec_safe_value(b[k].value@) && !seen.contains(ascii_lower(b[k].name@)),
        forall|k: int, j: int|
            i <= k < j < b.len() && setting_active(#[trigger] b[k]) && setting_active(
                #[trigger] b[j],
            ) ==> ascii_lower(b[k].name@) != ascii_lower(b[j].name@),
    decreases b.len() - i,
{
    if i < b.len() {
        if !setting_active(b[i]) {
            lemma_settings_sound(b, i + 1, seen);
        } else {
            let l = ascii_lower(b[i].name@);
            lemma_settings_sound(b, i + 1, seen.push(l));
            assert forall|k: int|
                i < k < b.len() && setting_active(#[trigger] b[k]) implies !seen.contains(
                ascii_lower(b[k].name@),
            ) && ascii_lower(b[k].name@) != l by {
                assert(!seen.push(l).contains(ascii_lower(b[k].name@)));
                if seen.contains(ascii_lower(b[k].name@)) {
                    let w = choose|w: int|
                        0 <= w < seen.len() && seen[w] == ascii_lower(b[k].name@);
                    assert(seen.push(l)[w] == seen[w]);
                }
                assert(seen.push(l)[seen.len() as int] == l);
            }
        }
    }
}

proof fn lemma_mappings_sound(b: Seq<FileMapping>, i: int, seen: Seq<Seq<char>>)
    requires
        0 <= i,
        mappings_error(b, i, seen) is None,
    ensures
        forall|k: int|
            i <= k < b.len() && mapping_active(#[trigger] b[k]) ==> spec_checked_mapping(
                b[k].path@,
            ) is Ok && !seen.contains(ascii_lower(b[k].path@)),
        forall|k: int, j: int|
            i <= k < j < b.len() && mapping_active(#[trigger] b[k]) && mapping_active(
                #[trigger] b[j],
            ) ==> ascii_lower(b[k].path@) != ascii_lower(b[j].path@),
    decreases b.len() - i,
{
    if i < b.len() {
        if !mapping_active(b[i]) {
            lemma_mappings_sound(b, i + 1, seen);
        } else {
            let l = ascii_lower(b[i].path@);
            lemma_mappings_sound(b, i + 1, seen.push(l));
            assert forall|k: int|
                i < k < b.len() && mapping_active(#[trigger] b[k]) implies !seen.contains(
                ascii_lower(b[k].path@),
            ) && ascii_lower(b[k].path@) != l by {
                assert(!seen.push(l).contains(ascii_lower(b[k].path@)));
                if seen.contains(ascii_lower(b[k].path@)) {
                    let w = choose|w: int|
                        0 <= w < seen.len() && seen[w] == ascii_lower(b[k].path@);
                    assert(seen.push(l)[w] == seen[w]);
                }
                assert(seen.push(l)[seen.len() as int] == l);
            }
        }
    }
}

proof fn lemma_items_sound(items: Seq<WorkshopItem>, i: int)
    requires
        0 <= i,
        items_error(items, i) is None,
    ensures
        forall|k: int| i <= k < items.len() ==> is_numeric(#[trigger] items[k].id@),
    decreases items.len() - i,
{
    if i < items.len() {
        lemma_items_sound(items, i + 1);
    }
}

/// A preset with no validation error is sound.
pub proof fn lemma_profile_sound(p: Profile)
    requires
        profile_error(p) is None,
    ensures
        profile_sound(p),
{
    lemma_binds_sound(p.binds@, 0, seq![]);
    lemma_settings_sound(p.convars@, 0, seq![]);
    lemma_items_sound(p.workshop.items@, 0);
    lemma_mappings_sound(p.file_mappings@, 0, seq![]);
}

} // verus!
