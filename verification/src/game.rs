//! What the manager reads from a Garry's Mod install and Steam's files: paths for display, binds
//! and settings from the game's configs, and library folders from Steam's manifests.

use crate::idmap::IdMap;
use crate::library::{quoted, quoted_words};
use crate::details::item_page_url;
use crate::model::{Bind, Profile, Setting};
use crate::preview::{replace_all, replace_str};
use crate::text::{
    ascii_lower, chars_of, copy_chars, is_numeric, is_ws, lines, lines_of, lower_chars, starts_with,
    starts_with_chars, string_of, trim, trim_chars, trim_start, trim_start_chars,
};
use crate::validate::{spec_safe_value, spec_valid_key, safe_value, valid_key};
use vstd::prelude::*;

verus! {

/// The verbatim prefixes Windows puts before canonical paths.
pub const UNC_PREFIX: &'static str = "\\\\?\\UNC\\";

pub const VERBATIM_PREFIX: &'static str = "\\\\?\\";

/// A path as the user knows it: without the verbatim prefix of canonical Windows paths.
pub open spec fn spec_display_path(text: Seq<char>) -> Seq<char> {
    if starts_with(text, UNC_PREFIX@) {
        "\\\\"@ + text.skip(UNC_PREFIX@.len() as int)
    } else if starts_with(text, VERBATIM_PREFIX@) {
        text.skip(VERBATIM_PREFIX@.len() as int)
    } else {
        text
    }
}

fn skip_chars(s: &[char], n: usize) -> (r: Vec<char>)
    requires
        n <= s.len(),
    ensures
        r@ == s@.skip(n as int),
{
    let mut r: Vec<char> = Vec::new();
    let mut i = n;
    while i < s.len()
        invariant
            n <= i <= s.len(),
            r@ == s@.subrange(n as int, i as int),
        decreases s.len() - i,
    {
        r.push(s[i]);
        i = i + 1;
        assert(r@ =~= s@.subrange(n as int, i as int));
    }
    r
}

/// Shows a path (given as text) without Windows' verbatim prefix.
pub fn display_path(text: &str) -> (r: String)
    ensures
        r@ == spec_display_path(text@),
{
    let t = chars_of(text);
    let unc = chars_of(UNC_PREFIX);
    let verbatim = chars_of(VERBATIM_PREFIX);
    if starts_with_chars(&t, &unc) {
        let mut out: Vec<char> = Vec::new();
        crate::text::push_str(&mut out, "\\\\");
        let rest = skip_chars(&t, unc.len());
        crate::text::push_all(&mut out, &rest);
        string_of(&out)
    } else if starts_with_chars(&t, &verbatim) {
        string_of(&skip_chars(&t, verbatim.len()))
    } else {
        text.to_string()
    }
}

/// The quoted words of a line: the text after each opening `"` up to the next `"` or the end.
pub fn quoted_parts(line: &str) -> (r: Vec<String>)
    ensures
        r@.map_values(|s: String| s@) == quoted_words(line@),
{
    let words = quoted(&chars_of(line));
    let mut r: Vec<String> = Vec::new();
    let mut i: usize = 0;
    while i < words.len()
        invariant
            i <= words@.len(),
            r@.map_values(|s: String| s@) == words@.map_values(|q: Vec<char>| q@).take(i as int),
        decreases words.len() - i,
    {
        let ghost before = r@.map_values(|s: String| s@);
        r.push(string_of(&words[i]));
        assert(r@.map_values(|s: String| s@) =~= before.push(words@[i as int]@));
        i = i + 1;
        assert(r@.map_values(|s: String| s@) =~= words@.map_values(|q: Vec<char>| q@).take(
            i as int,
        ));
    }
    assert(words@.map_values(|q: Vec<char>| q@).take(i as int) =~= words@.map_values(
        |q: Vec<char>| q@,
    ));
    r
}

/// The key and command of a `bind "key" "command"` line of `config.cfg`.
pub open spec fn bind_of_line(line: Seq<char>) -> Option<(Seq<char>, Seq<char>)> {
    let q = quoted_words(line);
    if starts_with(ascii_lower(trim_start(line)), "bind "@) && q.len() >= 2 {
        Some((q[0], q[1]))
    } else {
        None
    }
}

/// The binds of a config, in order.
pub open spec fn config_binds(ls: Seq<Seq<char>>) -> Seq<(Seq<char>, Seq<char>)>
    decreases ls.len(),
{
    if ls.len() == 0 {
        seq![]
    } else {
        match bind_of_line(ls.last()) {
            Some(b) => config_binds(ls.drop_last()).push(b),
            None => config_binds(ls.drop_last()),
        }
    }
}

/// `b` is the bind read from `kc`, ticked when it is safe to write back.
pub open spec fn bind_read(b: Bind, kc: (Seq<char>, Seq<char>)) -> bool {
    &&& b.key@ == kc.0
    &&& b.command@ == kc.1
    &&& b.sync == (spec_valid_key(kc.0) && spec_safe_value(kc.1))
}

/// The binds in the text of `config.cfg`, ticked when they are safe to sync.
pub fn binds_from_config(text: &str) -> (r: Vec<Bind>)
    ensures
        r@.len() == config_binds(lines(text@)).len(),
        forall|i: int| 0 <= i < r@.len() ==> bind_read(#[trigger] r@[i], config_binds(lines(text@))[i]),
{
    let t = chars_of(text);
    let ls = lines_of(&t);
    let ghost lv = lines(text@);
    let mut r: Vec<Bind> = Vec::new();
    let mut i: usize = 0;
    while i < ls.len()
        invariant
            i <= ls@.len(),
            ls@.map_values(|p: Vec<char>| p@) == lv,
            r@.len() == config_binds(lv.take(i as int)).len(),
            forall|k: int|
                0 <= k < r@.len() ==> bind_read(#[trigger] r@[k], config_binds(lv.take(i as int))[k]),
        decreases ls.len() - i,
    {
        assert(lv.take(i + 1).drop_last() =~= lv.take(i as int));
        assert(ls@[i as int]@ == lv[i as int]);
        let line = &ls[i];
        let q = quoted(line);
        let lead = lower_chars(&trim_start_chars(line));
        let prefix = chars_of("bind ");
        if starts_with_chars(&lead, &prefix) && q.len() >= 2 {
            assert(q@[0]@ == quoted_words(line@)[0]);
            assert(q@[1]@ == quoted_words(line@)[1]);
            let key = string_of(&q[0]);
            let command = string_of(&q[1]);
            let sync = valid_key(key.as_str()) && safe_value(command.as_str());
            let ghost prior = r@;
            r.push(Bind { key, command, sync });
            assert(forall|k: int| 0 <= k < prior.len() ==> r@[k] == prior[k]);
        }
        i = i + 1;
    }
    assert(lv.take(i as int) =~= lv);
    r
}

/// Index of the first whitespace character of `s`, or -1.
pub open spec fn first_ws(s: Seq<char>) -> int
    decreases s.len(),
{
    if s.len() == 0 {
        -1
    } else if is_ws(s[0]) {
        0
    } else if first_ws(s.drop_first()) < 0 {
        -1
    } else {
        first_ws(s.drop_first()) + 1
    }
}

/// `s` without the `"` characters at either end (`str::trim_matches('"')`).
pub open spec fn trim_quotes_start(s: Seq<char>) -> Seq<char>
    decreases s.len(),
{
    if s.len() > 0 && s[0] == '"' {
        trim_quotes_start(s.drop_first())
    } else {
        s
    }
}

pub open spec fn trim_quotes_end(s: Seq<char>) -> Seq<char>
    decreases s.len(),
{
    if s.len() > 0 && s.last() == '"' {
        trim_quotes_end(s.drop_last())
    } else {
        s
    }
}

pub open spec fn trim_quotes(s: Seq<char>) -> Seq<char> {
    trim_quotes_end(trim_quotes_start(s))
}

/// The setting a config line sets: its first word, in lower case, and the rest of the line,
/// trimmed and without surrounding quotes. Blank lines, comments and lone words set nothing.
pub open spec fn setting_of_line(line: Seq<char>) -> Option<(Seq<char>, Seq<char>)> {
    let t = trim(line);
    let w = first_ws(t);
    if t.len() == 0 || starts_with(t, "//"@) || w < 0 {
        None
    } else {
        Some((ascii_lower(t.take(w)), trim_quotes(trim(t.skip(w + 1)))))
    }
}

/// Each setting the lines set, to the value of its last line.
pub open spec fn config_values(ls: Seq<Seq<char>>, start: Map<Seq<char>, Seq<char>>) -> Map<
    Seq<char>,
    Seq<char>,
>
    decreases ls.len(),
{
    if ls.len() == 0 {
        start
    } else {
        let m = config_values(ls.drop_last(), start);
        match setting_of_line(ls.last()) {
            Some((k, v)) => m.insert(k, v),
            None => m,
        }
    }
}

/// The settings set by several config texts, read in order.
pub open spec fn texts_values(texts: Seq<Seq<char>>) -> Map<Seq<char>, Seq<char>>
    decreases texts.len(),
{
    if texts.len() == 0 {
        Map::empty()
    } else {
        config_values(lines(texts.last()), texts_values(texts.drop_last()))
    }
}

fn first_ws_index(s: &[char]) -> (r: Option<usize>)
    ensures
        match r {
            Some(i) => i < s.len() && i as int == first_ws(s@),
            None => first_ws(s@) < 0,
        },
{
    let mut i: usize = 0;
    assert(s@.skip(0) =~= s@);
    while i < s.len()
        invariant
            i <= s.len(),
            first_ws(s@) == (if first_ws(s@.skip(i as int)) < 0 {
                -1
            } else {
                first_ws(s@.skip(i as int)) + i
            }),
        decreases s.len() - i,
    {
        assert(s@.skip(i as int).drop_first() =~= s@.skip(i + 1));
        if crate::text::is_whitespace(s[i]) {
            return Some(i);
        }
        i = i + 1;
    }
    None
}

fn trim_quotes_chars(s: &[char]) -> (r: Vec<char>)
    ensures
        r@ == trim_quotes(s@),
{
    let mut a: usize = 0;
    assert(s@.skip(0) =~= s@);
    while a < s.len() && s[a] == '"'
        invariant
            a <= s.len(),
            trim_quotes_start(s@) == trim_quotes_start(s@.skip(a as int)),
        decreases s.len() - a,
    {
        assert(s@.skip(a as int).drop_first() =~= s@.skip(a + 1));
        a = a + 1;
    }
    let mut b: usize = s.len();
    assert(s@.skip(a as int).take(s.len() - a) =~= s@.skip(a as int));
    while b > a && s[b - 1] == '"'
        invariant
            a <= b <= s.len(),
            trim_quotes_start(s@) == s@.skip(a as int),
            trim_quotes_end(s@.skip(a as int)) == trim_quotes_end(s@.subrange(a as int, b as int)),
        decreases b - a,
    {
        assert(s@.subrange(a as int, b as int).drop_last() =~= s@.subrange(a as int, b - 1));
        b = b - 1;
    }
    let mut r: Vec<char> = Vec::new();
    let mut k = a;
    while k < b
        invariant
            a <= k <= b,
            b <= s.len(),
            r@ == s@.subrange(a as int, k as int),
        decreases b - k,
    {
        r.push(s[k]);
        k = k + 1;
        assert(r@ =~= s@.subrange(a as int, k as int));
    }
    r
}

/// Reads the settings a config text sets into `values`; later lines win.
fn read_values(text: &str, values: &mut IdMap<String>)
    requires
        old(values).wf(),
    ensures
        final(values).wf(),
        final(values)@.map_values(|v: String| v@) == config_values(lines(text@), old(values)@.map_values(|v: String| v@)),
{
    let t = chars_of(text);
    let ls = lines_of(&t);
    let ghost lv = lines(text@);
    let ghost start = values@.map_values(|v: String| v@);
    let mut i: usize = 0;
    while i < ls.len()
        invariant
            i <= ls@.len(),
            ls@.map_values(|p: Vec<char>| p@) == lv,
            values.wf(),
            values@.map_values(|v: String| v@) == config_values(lv.take(i as int), start),
        decreases ls.len() - i,
    {
        assert(lv.take(i + 1).drop_last() =~= lv.take(i as int));
        assert(ls@[i as int]@ == lv[i as int]);
        let line = trim_chars(&ls[i]);
        let comment = chars_of("//");
        if line.len() > 0 && !starts_with_chars(&line, &comment) {
            if let Some(w) = first_ws_index(&line) {
                let mut key: Vec<char> = Vec::new();
                let mut k: usize = 0;
                while k < w
                    invariant
                        k <= w,
                        w < line@.len(),
                        key@ == line@.take(k as int),
                    decreases w - k,
                {
                    key.push(line[k]);
                    k = k + 1;
                    assert(key@ =~= line@.take(k as int));
                }
                let lowered = lower_chars(&key);
                let mut rest: Vec<char> = Vec::new();
                let mut j = w + 1;
                while j < line.len()
                    invariant
                        w + 1 <= j <= line@.len(),
                        rest@ == line@.subrange(w + 1, j as int),
                    decreases line.len() - j,
                {
                    rest.push(line[j]);
                    j = j + 1;
                    assert(rest@ =~= line@.subrange(w + 1, j as int));
                }
                assert(rest@ =~= line@.skip(w + 1));
                let value = trim_quotes_chars(&trim_chars(&rest));
                let ghost before = values@;
                values.insert(string_of(&lowered), string_of(&value));
                assert(values@.map_values(|v: String| v@) =~= before.map_values(|v: String| v@).insert(
                    lowered@,
                    value@,
                ));
            }
        }
        i = i + 1;
    }
    assert(lv.take(i as int) =~= lv);
}

/// How many settings a capture updates: the ticked ones that the configs set.
pub open spec fn captured(settings: Seq<Setting>, values: Map<Seq<char>, Seq<char>>) -> nat
    decreases settings.len(),
{
    if settings.len() == 0 {
        0
    } else {
        captured(settings.drop_last(), values) + (if settings.last().sync && values.contains_key(
            ascii_lower(settings.last().name@),
        ) {
            1nat
        } else {
            0nat
        })
    }
}

/// `after` is `before` with its value taken from the configs when it is ticked and set there.
pub open spec fn captured_setting(after: Setting, before: Setting, values: Map<Seq<char>, Seq<char>>) -> bool {
    &&& after.name@ == before.name@
    &&& after.sync == before.sync
    &&& after.value@ == (if before.sync && values.contains_key(ascii_lower(before.name@)) {
        values[ascii_lower(before.name@)]
    } else {
        before.value@
    })
}

/// Copies into the ticked settings the values that the game's configs (`config.cfg`, then
/// `autoexec.cfg`) set, and returns how many it updated.
pub fn capture_settings(texts: &Vec<String>, settings: &mut Vec<Setting>) -> (n: usize)
    ensures
        final(settings)@.len() == old(settings)@.len(),
        forall|i: int|
            0 <= i < final(settings)@.len() ==> captured_setting(
                #[trigger] final(settings)@[i],
                old(settings)@[i],
                texts_values(texts@.map_values(|t: String| t@)),
            ),
        n == captured(old(settings)@, texts_values(texts@.map_values(|t: String| t@))),
{
    let ghost tv = texts@.map_values(|t: String| t@);
    let mut values: IdMap<String> = IdMap::new();
    assert(values@.map_values(|v: String| v@) =~= Map::<Seq<char>, Seq<char>>::empty());
    let mut t: usize = 0;
    while t < texts.len()
        invariant
            t <= texts@.len(),
            tv == texts@.map_values(|x: String| x@),
            values.wf(),
            values@.map_values(|v: String| v@) == texts_values(tv.take(t as int)),
        decreases texts.len() - t,
    {
        assert(tv.take(t + 1).drop_last() =~= tv.take(t as int));
        read_values(texts[t].as_str(), &mut values);
        t = t + 1;
    }
    assert(tv.take(t as int) =~= tv);
    let ghost vals = texts_values(tv);
    let ghost original = settings@;
    let mut count: usize = 0;
    let mut i: usize = 0;
    while i < settings.len()
        invariant
            i <= settings@.len(),
            settings@.len() == original.len(),
            values.wf(),
            values@.map_values(|v: String| v@) == vals,
            forall|k: int| i <= k < settings@.len() ==> settings@[k] == original[k],
            forall|k: int| 0 <= k < i ==> captured_setting(#[trigger] settings@[k], original[k], vals),
            count == captured(original.take(i as int), vals),
            count <= i,
        decreases settings.len() - i,
    {
        assert(original.take(i + 1).drop_last() =~= original.take(i as int));
        let key = lower_chars(&chars_of(settings[i].name.as_str()));
        let key_text = string_of(&key);
        let found = if settings[i].sync {
            match values.get(key_text.as_str()) {
                Some(v) => Some(v.clone()),
                None => None,
            }
        } else {
            None
        };
        if let Some(v) = found {
            let ghost prior = settings@;
            let s = Setting { name: settings[i].name.clone(), value: v, sync: settings[i].sync };
            settings.set(i, s);
            count = count + 1;
            assert(forall|k: int| 0 <= k < settings@.len() && k != i ==> settings@[k] == prior[k]);
        } else {
            proof {
                if original[i as int].sync {
                    assert(!values@.contains_key(key@));
                }
            }
        }
        i = i + 1;
    }
    assert(original.take(i as int) =~= original);
    count
}

/// The library folders listed in Steam's `libraryfolders.vdf`, in order, with doubled
/// backslashes undone.
pub open spec fn vdf_paths(ls: Seq<Seq<char>>) -> Seq<Seq<char>>
    decreases ls.len(),
{
    if ls.len() == 0 {
        seq![]
    } else {
        let p = quoted_words(ls.last());
        if p.len() >= 2 && p[0] == "path"@ {
            vdf_paths(ls.drop_last()).push(replace_all(p[1], "\\\\"@, "\\"@))
        } else {
            vdf_paths(ls.drop_last())
        }
    }
}

/// Reads the library folders out of `libraryfolders.vdf`.
pub fn library_paths(text: &str) -> (r: Vec<String>)
    ensures
        r@.map_values(|s: String| s@) == vdf_paths(lines(text@)),
{
    let t = chars_of(text);
    let ls = lines_of(&t);
    let ghost lv = lines(text@);
    let mut r: Vec<String> = Vec::new();
    let mut i: usize = 0;
    proof {
        reveal_strlit("\\\\");
    }
    while i < ls.len()
        invariant
            i <= ls@.len(),
            ls@.map_values(|p: Vec<char>| p@) == lv,
            r@.map_values(|s: String| s@) == vdf_paths(lv.take(i as int)),
            "\\\\"@.len() > 0,
        decreases ls.len() - i,
    {
        assert(lv.take(i + 1).drop_last() =~= lv.take(i as int));
        assert(ls@[i as int]@ == lv[i as int]);
        let p = quoted(&ls[i]);
        if p.len() >= 2 && crate::text::chars_equal(&p[0], &chars_of("path")) {
            assert(p@[0]@ == quoted_words(lv[i as int])[0]);
            assert(p@[1]@ == quoted_words(lv[i as int])[1]);
            let folder = replace_str(string_of(&p[1]).as_str(), "\\\\", "\\");
            let ghost before = r@.map_values(|s: String| s@);
            r.push(folder);
            assert(r@.map_values(|s: String| s@) =~= before.push(folder@));
        }
        i = i + 1;
    }
    assert(lv.take(i as int) =~= lv);
    r
}

/// The first `installdir` in an app manifest's lines, if any.
pub open spec fn manifest_dir(ls: Seq<Seq<char>>) -> Option<Seq<char>>
    decreases ls.len(),
{
    if ls.len() == 0 {
        None
    } else {
        let p = quoted_words(ls[0]);
        if p.len() >= 2 && p[0] == "installdir"@ {
            Some(p[1])
        } else {
            manifest_dir(ls.drop_first())
        }
    }
}

/// The install folder an app manifest names, `GarrysMod` when it names none.
pub fn install_dir(text: &str) -> (r: String)
    ensures
        r@ == (match manifest_dir(lines(text@)) {
            Some(d) => d,
            None => "GarrysMod"@,
        }),
{
    let t = chars_of(text);
    let ls = lines_of(&t);
    let ghost lv = lines(text@);
    let mut i: usize = 0;
    assert(lv.skip(0) =~= lv);
    while i < ls.len()
        invariant
            i <= ls@.len(),
            ls@.map_values(|p: Vec<char>| p@) == lv,
            lv == lines(text@),
            manifest_dir(lv) == manifest_dir(lv.skip(i as int)),
        decreases ls.len() - i,
    {
        assert(lv.skip(i as int).drop_first() =~= lv.skip(i + 1));
        assert(lv.skip(i as int)[0] == lv[i as int]);
        assert(ls@[i as int]@ == lv[i as int]);
        let p = quoted(&ls[i]);
        assert(p@.len() == quoted_words(lv[i as int]).len());
        if p.len() >= 2 && crate::text::chars_equal(&p[0], &chars_of("installdir")) {
            assert(p@[0]@ == quoted_words(lv[i as int])[0]);
            assert(p@[1]@ == quoted_words(lv[i as int])[1]);
            assert(manifest_dir(lv.skip(i as int)) == Some(p@[1]@));
            return string_of(&p[1]);
        }
        i = i + 1;
    }
    "GarrysMod".to_string()
}

/// The link of a preset's collection: its Workshop page when the preset names a collection by
/// ID, else the link it was saved with.
pub fn collection_url(profile: &Profile) -> (r: String)
    ensures
        r@ == (if is_numeric(profile.workshop.collection_id@) {
            item_page_url(profile.workshop.collection_id@)
        } else {
            profile.source.collection_url@
        }),
{
    if crate::text::numeric(profile.workshop.collection_id.as_str()) {
        let mut url: Vec<char> = Vec::new();
        crate::text::push_str(&mut url, "https://steamcommunity.com/sharedfiles/filedetails/?id=");
        crate::text::push_str(&mut url, profile.workshop.collection_id.as_str());
        string_of(&url)
    } else {
        profile.source.collection_url.clone()
    }
}

/// Links are only opened when they are `https://` addresses.
pub fn checked_url(url: &str) -> (r: Result<(), String>)
    ensures
        r is Ok <==> starts_with(url@, "https://"@),
        r matches Err(e) ==> e@ == "That link isn't a valid https:// address."@,
{
    if !starts_with_chars(&chars_of(url), &chars_of("https://")) {
        return Err("That link isn't a valid https:// address.".to_string());
    }
    Ok(())
}

} // verus!
