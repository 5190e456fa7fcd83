//! Text building blocks of the config preview: managed blocks, Lua literals and replacements.

use crate::idmap::IdMap;
use crate::library::Plan;
use crate::model::{Profile, WorkshopItem};
use crate::order::str_views;
use crate::utf8::{utf8, utf8_bytes};
use crate::workshop::{format_size, size_label, ItemMeta};
use crate::validate::string_result;
use crate::text::{
    chars_of, find, find_chars_from, lemma_find_from, push_all, push_str, starts_with, string_of,
};
use vstd::prelude::*;

verus! {

/// `s` with its leading `'\r'` and `'\n'` characters removed.
pub open spec fn trim_newlines_start(s: Seq<char>) -> Seq<char>
    decreases s.len(),
{
    if s.len() > 0 && (s[0] == '\r' || s[0] == '\n') {
        trim_newlines_start(s.drop_first())
    } else {
        s
    }
}

/// `source` without the first block that runs from `begin` to the next `end_marker`, the line
/// breaks right after it included; unchanged when `begin` does not occur.
pub open spec fn spec_without_managed_block(
    source: Seq<char>,
    begin: Seq<char>,
    end_marker: Seq<char>,
) -> Result<Seq<char>, Seq<char>> {
    let start = find(source, begin);
    if start < 0 {
        Ok(source)
    } else {
        let rel = find(source.subrange(start, source.len() as int), end_marker);
        if rel < 0 {
            Err("Managed block is missing its end marker: "@ + begin)
        } else {
            let end = start + rel + end_marker.len();
            Ok(source.subrange(0, start) + trim_newlines_start(
                source.subrange(end, source.len() as int),
            ))
        }
    }
}

fn sub_chars(s: &[char], from: usize, to: usize) -> (r: Vec<char>)
    requires
        from <= to <= s.len(),
    ensures
        r@ == s@.subrange(from as int, to as int),
{
    let mut v: Vec<char> = Vec::new();
    let mut i = from;
    while i < to
        invariant
            from <= i <= to,
            to <= s.len(),
            v@ == s@.subrange(from as int, i as int),
        decreases to - i,
    {
        v.push(s[i]);
        i = i + 1;
        assert(v@ =~= s@.subrange(from as int, i as int));
    }
    v
}

fn trim_newlines_start_chars(s: &[char]) -> (r: Vec<char>)
    ensures
        r@ == trim_newlines_start(s@),
{
    let mut i: usize = 0;
    assert(s@.subrange(0, s.len() as int) =~= s@);
    while i < s.len() && (s[i] == '\r' || s[i] == '\n')
        invariant
            i <= s.len(),
            trim_newlines_start(s@) == trim_newlines_start(s@.subrange(i as int, s.len() as int)),
        decreases s.len() - i,
    {
        assert(s@.subrange(i as int, s.len() as int).drop_first() =~= s@.subrange(
            i + 1,
            s.len() as int,
        ));
        i = i + 1;
    }
    sub_chars(s, i, s.len())
}

/// Removes the block between `begin` and `end_marker` (both included) and the line breaks that
/// follow it.
pub fn without_managed_block(source: &str, begin: &str, end_marker: &str) -> (r: Result<
    String,
    String,
>)
    ensures
        string_result(r) == spec_without_managed_block(source@, begin@, end_marker@),
{
    let s = chars_of(source);
    let b = chars_of(begin);
    let e = chars_of(end_marker);
    match find_chars_from(&s, &b, 0) {
        None => Ok(source.to_string()),
        Some(start) => {
            proof {
                lemma_find_from(s@, b@, 0);
            }
            let tail = sub_chars(&s, start, s.len());
            match find_chars_from(&tail, &e, 0) {
                None => {
                    let mut m: Vec<char> = Vec::new();
                    push_str(&mut m, "Managed block is missing its end marker: ");
                    push_all(&mut m, &b);
                    Err(string_of(&m))
                },
                Some(rel) => {
                    proof {
                        lemma_find_from(tail@, e@, 0);
                    }
                    let end = start + rel + e.len();
                    let mut out = sub_chars(&s, 0, start);
                    let rest = sub_chars(&s, end, s.len());
                    let trimmed = trim_newlines_start_chars(&rest);
                    push_all(&mut out, &trimmed);
                    Ok(string_of(&out))
                },
            }
        },
    }
}

/// One `  "id",` line per ID, in order.
pub open spec fn spec_lua_list(ids: Seq<Seq<char>>) -> Seq<char>
    decreases ids.len(),
{
    if ids.len() == 0 {
        seq![]
    } else {
        spec_lua_list(ids.drop_last()) + "  \""@ + ids.last() + "\",\n"@
    }
}

/// The entries of a Lua table of strings, one per line.
pub fn lua_list(ids: &Vec<String>) -> (r: String)
    ensures
        r@ == spec_lua_list(str_views(ids@)),
{
    let mut out: Vec<char> = Vec::new();
    let mut i: usize = 0;
    while i < ids.len()
        invariant
            i <= ids@.len(),
            out@ == spec_lua_list(str_views(ids@).take(i as int)),
        decreases ids.len() - i,
    {
        let ghost before = out@;
        push_str(&mut out, "  \"");
        push_str(&mut out, ids[i].as_str());
        push_str(&mut out, "\",\n");
        i = i + 1;
        assert(str_views(ids@).take(i as int).drop_last() =~= str_views(ids@).take(i - 1));
        assert(out@ =~= before + "  \""@ + ids@[i - 1]@ + "\",\n"@);
    }
    assert(str_views(ids@).take(i as int) =~= str_views(ids@));
    string_of(&out)
}

/// The items of `ids` joined with `","`, as `[String]::join` does.
pub open spec fn joined(ids: Seq<Seq<char>>) -> Seq<char>
    decreases ids.len(),
{
    if ids.len() == 0 {
        seq![]
    } else if ids.len() == 1 {
        ids[0]
    } else {
        joined(ids.drop_last()) + ","@ + ids.last()
    }
}

pub const FNV_OFFSET: u64 = 0xcbf2_9ce4_8422_2325;

pub const FNV_PRIME: u64 = 0x0100_0000_01b3;

/// 64-bit FNV-1a over `bytes`.
pub open spec fn fnv1a(bytes: Seq<u8>) -> u64
    decreases bytes.len(),
{
    if bytes.len() == 0 {
        FNV_OFFSET
    } else {
        (fnv1a(bytes.drop_last()) ^ (bytes.last() as u64)).wrapping_mul(FNV_PRIME)
    }
}

pub open spec fn hex_digit(d: u64) -> char {
    if d < 10 {
        ((d + 48) as u32) as char
    } else {
        ((d + 87) as u32) as char
    }
}

/// The low `n` hex digits of `h`, most significant first, lower case, zero padded.
pub open spec fn hex_digits(h: u64, n: nat) -> Seq<char>
    decreases n,
{
    if n == 0 {
        seq![]
    } else {
        hex_digits(h / 16, (n - 1) as nat).push(hex_digit(h % 16))
    }
}

/// `format!("{h:016x}")`.
pub open spec fn hex16(h: u64) -> Seq<char> {
    hex_digits(h, 16)
}

pub open spec fn spec_list_token(ids: Seq<Seq<char>>) -> Seq<char> {
    hex16(fnv1a(utf8(joined(ids))))
}

fn joined_chars(ids: &Vec<String>) -> (r: Vec<char>)
    ensures
        r@ == joined(str_views(ids@)),
{
    let mut out: Vec<char> = Vec::new();
    let mut i: usize = 0;
    while i < ids.len()
        invariant
            i <= ids@.len(),
            out@ == joined(str_views(ids@).take(i as int)),
        decreases ids.len() - i,
    {
        let ghost before = out@;
        if i > 0 {
            push_str(&mut out, ",");
        }
        push_str(&mut out, ids[i].as_str());
        i = i + 1;
        assert(str_views(ids@).take(i as int).drop_last() =~= str_views(ids@).take(i - 1));
        if i == 1 {
            assert(out@ =~= ids@[0]@);
        } else {
            assert(out@ =~= before + ","@ + ids@[i - 1]@);
        }
    }
    assert(str_views(ids@).take(i as int) =~= str_views(ids@));
    out
}

fn hex_char(d: u64) -> (c: char)
    requires
        d < 16,
    ensures
        c == hex_digit(d),
{
    if d < 10 {
        crate::text::char_from_ascii((d + 48) as u32)
    } else {
        crate::text::char_from_ascii((d + 87) as u32)
    }
}

fn push_hex(dst: &mut Vec<char>, h: u64, n: u64)
    requires
        n <= 16,
    ensures
        final(dst)@ == old(dst)@ + hex_digits(h, n as nat),
    decreases n,
{
    if n > 0 {
        push_hex(dst, h / 16, n - 1);
        dst.push(hex_char(h % 16));
    }
}

/// A stable token for a list, so a step that depends on it runs once per list.
pub fn list_token(ids: &Vec<String>) -> (r: String)
    ensures
        r@ == spec_list_token(str_views(ids@)),
{
    let text = joined_chars(ids);
    let bytes = utf8_bytes(&text);
    let mut hash: u64 = FNV_OFFSET;
    let mut i: usize = 0;
    while i < bytes.len()
        invariant
            i <= bytes@.len(),
            hash == fnv1a(bytes@.take(i as int)),
        decreases bytes.len() - i,
    {
        hash = (hash ^ (bytes[i] as u64)).wrapping_mul(FNV_PRIME);
        i = i + 1;
        assert(bytes@.take(i as int).drop_last() =~= bytes@.take(i - 1));
    }
    assert(bytes@.take(i as int) =~= bytes@);
    let mut out: Vec<char> = Vec::new();
    push_hex(&mut out, hash, 16);
    assert(out@ =~= hex16(hash));
    string_of(&out)
}

/// `s` with each occurrence of `p`, found left to right without overlap, replaced by `r`
/// (`str::replace` for a non-empty `p`).
pub open spec fn replace_all(s: Seq<char>, p: Seq<char>, r: Seq<char>) -> Seq<char>
    decreases s.len(),
{
    let i = find(s, p);
    if p.len() == 0 || i < 0 {
        s
    } else {
        proof {
            lemma_find_from(s, p, 0);
        }
        s.subrange(0, i) + r + replace_all(s.subrange(i + p.len(), s.len() as int), p, r)
    }
}

fn replace_chars(s: &[char], p: &[char], r: &[char]) -> (out: Vec<char>)
    requires
        p.len() > 0,
    ensures
        out@ == replace_all(s@, p@, r@),
    decreases s.len(),
{
    match find_chars_from(s, p, 0) {
        None => {
            let out = sub_chars(s, 0, s.len());
            assert(out@ =~= s@);
            out
        },
        Some(i) => {
            proof {
                lemma_find_from(s@, p@, 0);
            }
            let mut out = sub_chars(s, 0, i);
            push_all(&mut out, r);
            let rest = sub_chars(s, i + p.len(), s.len());
            let tail = replace_chars(&rest, p, r);
            push_all(&mut out, &tail);
            out
        },
    }
}

/// `s.replace(p, r)` for a non-empty pattern.
pub fn replace_str(s: &str, p: &str, r: &str) -> (out: String)
    requires
        p@.len() > 0,
    ensures
        out@ == replace_all(s@, p@, r@),
{
    let sc = chars_of(s);
    let pc = chars_of(p);
    let rc = chars_of(r);
    string_of(&replace_chars(&sc, &pc, &rc))
}

pub open spec fn equals_signs(n: nat) -> Seq<char> {
    Seq::new(n, |i: int| '=')
}

/// The closing bracket of a Lua long string of level `n`: `]`, `n` equals signs, `]`.
pub open spec fn long_close(n: nat) -> Seq<char> {
    seq![']'] + equals_signs(n) + seq![']']
}

/// The first level from `l` on whose closing bracket does not occur in `text`.
pub open spec fn long_level(text: Seq<char>, l: nat) -> nat
    decreases text.len() + 1 - l,
{
    if l > text.len() || find(text, long_close(l)) < 0 {
        l
    } else {
        long_level(text, l + 1)
    }
}

proof fn lemma_level_unbroken(text: Seq<char>, l: nat)
    ensures
        find(text, long_close(long_level(text, l))) < 0,
    decreases text.len() + 1 - l,
{
    if l > text.len() {
        lemma_find_from(text, long_close(l), 0);
        assert(long_close(l).len() == l + 2);
    } else if find(text, long_close(l)) >= 0 {
        lemma_level_unbroken(text, l + 1);
    }
}

/// The closing bracket of the level chosen for a text does not occur inside the text, and the
/// level is at least one. (A text that ends in `]` followed by `=` signs can still run into the
/// bracket placed after it; this states nothing of that case.)
pub proof fn lemma_long_string_unbroken(text: Seq<char>)
    ensures
        find(text, long_close(long_level(text, 1))) < 0,
        long_level(text, 1) >= 1,
{
    lemma_level_unbroken(text, 1);
    lemma_level_at_least(text, 1);
}

proof fn lemma_level_at_least(text: Seq<char>, l: nat)
    ensures
        long_level(text, l) >= l,
    decreases text.len() + 1 - l,
{
    if !(l > text.len() || find(text, long_close(l)) < 0) {
        lemma_level_at_least(text, l + 1);
    }
}

/// `text` as a Lua long string whose level is the lowest from 1 on that `text` cannot end early.
pub open spec fn spec_lua_long_string(text: Seq<char>) -> Seq<char> {
    let l = long_level(text, 1);
    seq!['['] + equals_signs(l) + seq!['['] + text + long_close(l)
}

fn push_equals(dst: &mut Vec<char>, n: usize)
    ensures
        final(dst)@ == old(dst)@ + equals_signs(n as nat),
{
    let ghost start = dst@;
    let mut i: usize = 0;
    while i < n
        invariant
            i <= n,
            dst@ == start + equals_signs(i as nat),
        decreases n - i,
    {
        dst.push('=');
        i = i + 1;
        assert(dst@ =~= start + equals_signs(i as nat));
    }
}

/// Wraps text in a Lua long string whose delimiter doesn't occur in it.
pub fn lua_long_string(text: &str) -> (r: String)
    ensures
        r@ == spec_lua_long_string(text@),
{
    let t = chars_of(text);
    let n = t.len();
    let mut level: usize = 1;
    loop
        invariant
            n == t@.len(),
            1 <= level <= t@.len() + 1,
            long_level(t@, 1) == long_level(t@, level as nat),
        ensures
            long_level(t@, 1) == level,
        decreases t@.len() + 1 - level,
    {
        let mut close: Vec<char> = Vec::new();
        close.push(']');
        push_equals(&mut close, level);
        close.push(']');
        assert(close@ =~= long_close(level as nat));
        match find_chars_from(&t, &close, 0) {
            None => {
                break ;
            },
            Some(_) => {
                proof {
                    lemma_find_from(t@, close@, 0);
                }
                assert(level + 2 <= n);
                level = level + 1;
            },
        }
    }
    let mut out: Vec<char> = Vec::new();
    out.push('[');
    push_equals(&mut out, level);
    out.push('[');
    push_all(&mut out, &t);
    out.push(']');
    push_equals(&mut out, level);
    out.push(']');
    assert(out@ =~= spec_lua_long_string(text@));
    string_of(&out)
}

/// The Lua script that subscribes, mounts and reports the preset's Workshop items and draws the
/// GMod Manager tab; its placeholders are filled in by `workshop_menu_script`.
pub const MENU_TEMPLATE: &'static str = "-- Generated by GMod Manager.\n\
local ids = {\n__IDS__}\n\
local drop = {\n__DROP__}\n\
local catalogIds = {\n__CATALOG_IDS__}\n\
local catalog = __CATALOG__\n\
local tabScript = __TAB_JS__\n\
local requested = 0\n\
-- Adds the GMod Manager tab to the Addons page of the main menu.\n\
function GMMMenuTab()\n\
  if not IsValid(pnlMainMenu) then return end\n\
  local states = {}\n\
  for i, id in ipairs(catalogIds) do\n\
    if file.Exists(\"addons/gmm_\" .. id .. \"/gmm.json\", \"MOD\") then states[i] = \"local\"\n\
    elseif steamworks and steamworks.IsSubscribed and steamworks.IsSubscribed(id) then states[i] = \"steam\"\n\
    else states[i] = \"missing\" end\n\
  end\n\
  pnlMainMenu:Call(tabScript .. \"\\nGMMInit(\" .. catalog .. \", \" .. util.TableToJSON(states) .. \");\")\n\
end\n\
timer.Simple(1, GMMMenuTab)\n\
timer.Create(\"GMMMenuTabCheck\", 5, 0, function()\n\
  if IsValid(pnlMainMenu) then pnlMainMenu:Call(\"window.GMM || lua.Run('GMMMenuTab()')\") end\n\
end)\n\
local function report()\n\
  local subscribed = 0\n\
  for _, id in ipairs(ids) do\n\
    if steamworks.IsSubscribed(id) then subscribed = subscribed + 1 end\n\
  end\n\
  pcall(function() file.Write(\"gmm_workshop_status.json\", util.TableToJSON({ profile = \"__PROFILE__\", ids = ids, total = #ids, subscribed = subscribed, requested = requested })) end)\n\
end\n\
local function mount()\n\
  for _, id in ipairs(ids) do\n\
    if steamworks.IsSubscribed(id) then steamworks.SetShouldMountAddon(id, true) end\n\
  end\n\
  steamworks.ApplyAddons()\n\
  report()\n\
  GMMMenuTab()\n\
end\n\
timer.Simple(2, function()\n\
  if not steamworks or not steamworks.Subscribe or not steamworks.IsSubscribed then return end\n\
  if #drop > 0 and steamworks.Unsubscribe and file.Read(\"gmm_workshop_drop.txt\", \"DATA\") ~= \"__TOKEN__\" then\n\
    -- These mods are kept compressed in the GMod Manager library.\n\
    for _, id in ipairs(drop) do\n\
      if steamworks.IsSubscribed(id) then steamworks.Unsubscribe(id) end\n\
    end\n\
    file.Write(\"gmm_workshop_drop.txt\", \"__TOKEN__\")\n\
  end\n\
  for _, id in ipairs(ids) do\n\
    if not steamworks.IsSubscribed(id) then\n\
      steamworks.Subscribe(id)\n\
      requested = requested + 1\n\
    end\n\
  end\n\
  mount()\n\
  hook.Add(\"WorkshopSubscriptionsChanged\", \"GMMWorkshopStatus\", function()\n\
    timer.Create(\"GMMWorkshopStatus\", 1, 1, mount)\n\
  end)\n\
  timer.Simple(15, mount)\n\
end)\n";

/// JSON with the two line separators that JavaScript does not allow in strings escaped.
pub open spec fn js_safe(json: Seq<char>) -> Seq<char> {
    replace_all(
        replace_all(json, "\u{2028}"@, "\\u2028"@),
        "\u{2029}"@,
        "\\u2029"@,
    )
}

/// The menu script for a preset: `MENU_TEMPLATE` with its placeholders filled in, the generated
/// values last so that nothing inside them is taken for a placeholder.
pub open spec fn spec_menu_script(
    profile_id: Seq<char>,
    subscribe: Seq<Seq<char>>,
    unsubscribe: Seq<Seq<char>>,
    catalog_ids: Seq<Seq<char>>,
    catalog_json: Seq<char>,
    tab_js: Seq<char>,
) -> Seq<char> {
    let s = replace_all(MENU_TEMPLATE@, "__TOKEN__"@, spec_list_token(unsubscribe));
    let s = replace_all(s, "__PROFILE__"@, profile_id);
    let s = replace_all(s, "__IDS__"@, spec_lua_list(subscribe));
    let s = replace_all(s, "__DROP__"@, spec_lua_list(unsubscribe));
    let s = replace_all(s, "__CATALOG_IDS__"@, spec_lua_list(catalog_ids));
    let s = replace_all(s, "__TAB_JS__"@, spec_lua_long_string(tab_js));
    replace_all(s, "__CATALOG__"@, spec_lua_long_string(js_safe(catalog_json)))
}

/// The menu script that keeps the preset's Workshop items subscribed and mounted, drops the
/// items the library keeps, reports its status and draws the GMod Manager tab. `catalog_ids`
/// and `catalog_json` are the tab's data (see `menu_catalog`), `tab_js` the tab's script.
pub fn workshop_menu_script(
    profile: &Profile,
    plan: &Plan,
    catalog_ids: &Vec<String>,
    catalog_json: &str,
    tab_js: &str,
) -> (r: String)
    ensures
        r@ == spec_menu_script(
            profile.id@,
            str_views(plan.subscribe@),
            str_views(plan.unsubscribe@),
            str_views(catalog_ids@),
            catalog_json@,
            tab_js@,
        ),
{
    proof {
        reveal_strlit("__TOKEN__");
        reveal_strlit("__PROFILE__");
        reveal_strlit("__IDS__");
        reveal_strlit("__DROP__");
        reveal_strlit("__CATALOG_IDS__");
        reveal_strlit("__TAB_JS__");
        reveal_strlit("__CATALOG__");
        reveal_strlit("\u{2028}");
        reveal_strlit("\u{2029}");
    }
    let token = list_token(&plan.unsubscribe);
    let s = replace_str(MENU_TEMPLATE, "__TOKEN__", token.as_str());
    let s = replace_str(s.as_str(), "__PROFILE__", profile.id.as_str());
    let ids = lua_list(&plan.subscribe);
    let s = replace_str(s.as_str(), "__IDS__", ids.as_str());
    let drop = lua_list(&plan.unsubscribe);
    let s = replace_str(s.as_str(), "__DROP__", drop.as_str());
    let shown = lua_list(catalog_ids);
    let s = replace_str(s.as_str(), "__CATALOG_IDS__", shown.as_str());
    let tab = lua_long_string(tab_js);
    let s = replace_str(s.as_str(), "__TAB_JS__", tab.as_str());
    let json = replace_str(catalog_json, "\u{2028}", "\\u2028");
    let json = replace_str(json.as_str(), "\u{2029}", "\\u2029");
    let catalog = lua_long_string(json.as_str());
    replace_str(s.as_str(), "__CATALOG__", catalog.as_str())
}

/// One mod as the GMod Manager tab shows it.
#[derive(Clone, Debug)]
pub struct CatalogMod {
    pub id: String,
    pub preview: String,
    pub size: String,
    pub title: String,
}

/// The data shown in the GMod Manager tab of GMod's Addons menu.
#[derive(Clone, Debug)]
pub struct Catalog {
    pub mods: Vec<CatalogMod>,
    pub preset: String,
    pub size: String,
}

pub const PREVIEW_SIZE: &'static str = "imw=256&imh=256&ima=fit&impolicy=Letterbox&letterbox=false";

/// The title a mod is shown under: its own, else Steam's, else `Workshop item <id>`.
pub open spec fn catalog_title(item: WorkshopItem, meta: Map<Seq<char>, ItemMeta>) -> Seq<char> {
    if item.title matches Some(t) && t@.len() > 0 {
        item.title.unwrap()@
    } else if meta.contains_key(item.id@) && meta[item.id@].title@.len() > 0 {
        meta[item.id@].title@
    } else {
        "Workshop item "@ + item.id@
    }
}

/// A thumbnail URL at the tab's size, for previews served over HTTPS; empty otherwise.
pub open spec fn catalog_preview(item: WorkshopItem, meta: Map<Seq<char>, ItemMeta>) -> Seq<char> {
    if meta.contains_key(item.id@) && starts_with(meta[item.id@].preview_url@, "https://"@) {
        let url = meta[item.id@].preview_url@;
        url + (if url.contains('?') {
            seq!['&']
        } else {
            seq!['?']
        }) + PREVIEW_SIZE@
    } else {
        seq![]
    }
}

pub open spec fn item_size(item: WorkshopItem, meta: Map<Seq<char>, ItemMeta>) -> nat {
    if meta.contains_key(item.id@) {
        meta[item.id@].size as nat
    } else {
        0
    }
}

pub open spec fn size_text(size: nat) -> Seq<char> {
    if size > 0 {
        size_label(size)
    } else {
        seq![]
    }
}

/// The items the tab lists: the preset's available items, in order.
pub open spec fn shown_items(items: Seq<WorkshopItem>) -> Seq<WorkshopItem>
    decreases items.len(),
{
    if items.len() == 0 {
        seq![]
    } else if items.last().available {
        shown_items(items.drop_last()).push(items.last())
    } else {
        shown_items(items.drop_last())
    }
}

pub open spec fn total_size(items: Seq<WorkshopItem>, meta: Map<Seq<char>, ItemMeta>) -> nat
    decreases items.len(),
{
    if items.len() == 0 {
        0
    } else {
        total_size(items.drop_last(), meta) + item_size(items.last(), meta)
    }
}

pub open spec fn mod_matches(m: CatalogMod, item: WorkshopItem, meta: Map<Seq<char>, ItemMeta>) -> bool {
    &&& m.id@ == item.id@
    &&& m.title@ == catalog_title(item, meta)
    &&& m.size@ == size_text(item_size(item, meta))
    &&& m.preview@ == catalog_preview(item, meta)
}

pub open spec fn item_ids(items: Seq<WorkshopItem>) -> Seq<Seq<char>> {
    items.map_values(|x: WorkshopItem| x.id@)
}

fn catalog_mod(item: &WorkshopItem, meta: &IdMap<ItemMeta>) -> (r: (CatalogMod, u64))
    requires
        meta.wf(),
    ensures
        mod_matches(r.0, *item, meta@),
        r.1 == item_size(*item, meta@),
{
    let info = meta.get(item.id.as_str());
    let size: u64 = match info {
        Some(m) => m.size,
        None => 0,
    };
    let mut title: Vec<char> = Vec::new();
    let mut own = false;
    if let Some(t) = &item.title {
        if !t.as_str().is_empty() {
            push_str(&mut title, t.as_str());
            own = true;
        }
    }
    if !own {
        match info {
            Some(m) if !m.title.as_str().is_empty() => {
                push_str(&mut title, m.title.as_str());
            },
            _ => {
                push_str(&mut title, "Workshop item ");
                push_str(&mut title, item.id.as_str());
            },
        }
    }
    let mut preview: Vec<char> = Vec::new();
    if let Some(m) = info {
        let url = chars_of(m.preview_url.as_str());
        let https = chars_of("https://");
        if crate::text::starts_with_chars(&url, &https) {
            push_all(&mut preview, &url);
            let mut has_query = false;
            let mut k: usize = 0;
            while k < url.len()
                invariant
                    k <= url@.len(),
                    has_query == (exists|j: int| 0 <= j < k && url@[j] == '?'),
                decreases url.len() - k,
            {
                if url[k] == '?' {
                    has_query = true;
                }
                k = k + 1;
            }
            preview.push(if has_query { '&' } else { '?' });
            push_str(&mut preview, PREVIEW_SIZE);
        }
    }
    let size_label_text = if size > 0 {
        format_size(size)
    } else {
        String::new()
    };
    let m = CatalogMod {
        id: item.id.clone(),
        preview: string_of(&preview),
        size: size_label_text,
        title: string_of(&title),
    };
    assert(m.title@ == catalog_title(*item, meta@));
    assert(m.preview@ == catalog_preview(*item, meta@));
    assert(m.size@ == size_text(item_size(*item, meta@)));
    (m, size)
}

/// Whether the sizes of the items the tab lists add up to a number that fits a `u64`.
pub fn catalog_size_fits(profile: &Profile, meta: &IdMap<ItemMeta>) -> (r: bool)
    requires
        meta.wf(),
    ensures
        r == (total_size(shown_items(profile.workshop.items@), meta@) <= u64::MAX),
{
    let items = &profile.workshop.items;
    let ghost all = items@;
    let mut total: u64 = 0;
    let mut i: usize = 0;
    while i < items.len()
        invariant
            i <= all.len(),
            all == items@,
            all == profile.workshop.items@,
            meta.wf(),
            total == total_size(shown_items(all.take(i as int)), meta@),
        decreases items.len() - i,
    {
        let ghost prev = shown_items(all.take(i as int));
        assert(all.take(i + 1).drop_last() =~= all.take(i as int));
        proof {
            lemma_total_prefix(all, i + 1, meta@);
        }
        if items[i].available {
            let size: u64 = match meta.get(items[i].id.as_str()) {
                Some(m) => m.size,
                None => 0,
            };
            assert(prev.push(all[i as int]).drop_last() =~= prev);
            assert(total_size(prev.push(all[i as int]), meta@) == total + size);
            match total.checked_add(size) {
                Some(t) => {
                    total = t;
                },
                None => {
                    return false;
                },
            }
        }
        i = i + 1;
    }
    assert(all.take(i as int) =~= all);
    true
}

/// The tab's data for a preset: its available items in order, with titles, sizes and
/// thumbnails, and the IDs they are shown for. The total size must fit in a `u64`.
pub fn menu_catalog(profile: &Profile, meta: &IdMap<ItemMeta>) -> (r: (Vec<String>, Catalog))
    requires
        meta.wf(),
        total_size(shown_items(profile.workshop.items@), meta@) <= u64::MAX,
    ensures
        str_views(r.0@) == item_ids(shown_items(profile.workshop.items@)),
        r.1.mods@.len() == shown_items(profile.workshop.items@).len(),
        forall|i: int|
            0 <= i < r.1.mods@.len() ==> mod_matches(
                #[trigger] r.1.mods@[i],
                shown_items(profile.workshop.items@)[i],
                meta@,
            ),
        r.1.preset@ == profile.name@,
        r.1.size@ == size_text(total_size(shown_items(profile.workshop.items@), meta@)),
{
    let items = &profile.workshop.items;
    let ghost all = items@;
    let mut ids: Vec<String> = Vec::new();
    let mut mods: Vec<CatalogMod> = Vec::new();
    let mut total: u64 = 0;
    let mut i: usize = 0;
    while i < items.len()
        invariant
            i <= all.len(),
            all == items@,
            meta.wf(),
            total_size(shown_items(all), meta@) <= u64::MAX,
            str_views(ids@) == item_ids(shown_items(all.take(i as int))),
            mods@.len() == shown_items(all.take(i as int)).len(),
            forall|j: int|
                0 <= j < mods@.len() ==> mod_matches(
                    #[trigger] mods@[j],
                    shown_items(all.take(i as int))[j],
                    meta@,
                ),
            total == total_size(shown_items(all.take(i as int)), meta@),
        decreases items.len() - i,
    {
        let ghost prev = shown_items(all.take(i as int));
        assert(all.take(i + 1).drop_last() =~= all.take(i as int));
        assert(all.take(i + 1).last() == all[i as int]);
        proof {
            lemma_total_prefix(all, i + 1, meta@);
        }
        if items[i].available {
            let (m, size) = catalog_mod(&items[i], meta);
            assert(prev.push(all[i as int]).drop_last() =~= prev);
            assert(total_size(prev.push(all[i as int]), meta@) == total + size);
            total = total + size;
            let ghost before = str_views(ids@);
            ids.push(items[i].id.clone());
            assert(str_views(ids@) =~= before.push(all[i as int].id@));
            assert(item_ids(prev.push(all[i as int])) =~= item_ids(prev).push(all[i as int].id@));
            mods.push(m);
        }
        i = i + 1;
    }
    assert(all.take(i as int) =~= all);
    let size = if total > 0 {
        format_size(total)
    } else {
        String::new()
    };
    (ids, Catalog { mods, preset: profile.name.clone(), size })
}

/// The total over a prefix of the shown items never exceeds the total over all of them.
pub proof fn lemma_total_prefix(all: Seq<WorkshopItem>, k: int, meta: Map<Seq<char>, ItemMeta>)
    requires
        0 <= k <= all.len(),
    ensures
        total_size(shown_items(all.take(k)), meta) <= total_size(shown_items(all), meta),
    decreases all.len() - k,
{
    if k < all.len() {
        lemma_total_prefix(all, k + 1, meta);
        let prev = shown_items(all.take(k));
        assert(all.take(k + 1).drop_last() =~= all.take(k));
        if all[k].available {
            assert(prev.push(all[k]).drop_last() =~= prev);
        }
    } else {
        assert(all.take(k) =~= all);
    }
}

} // verus!
