//! Release checks for self-update: version order and the checks on a downloaded build.

use crate::details::text_of;
use crate::json::Json;
use crate::text::{
    ascii_lower, chars_of, parse_u64, parse_u64_chars, split, split_chars, string_of, trim, trim_chars,
    trim_start,
};
use vstd::prelude::*;

verus! {

/// Leading `v`s removed (`str::trim_start_matches('v')`).
pub open spec fn strip_vs(s: Seq<char>) -> Seq<char>
    decreases s.len(),
{
    if s.len() > 0 && s[0] == 'v' {
        strip_vs(s.drop_first())
    } else {
        s
    }
}

/// `-` and `+` turned into `.`, so that one split finds every dotted, pre-release or build part.
pub open spec fn dots(s: Seq<char>) -> Seq<char> {
    s.map_values(|c: char| if c == '-' || c == '+' { '.' } else { c })
}

/// A version part's number; text that is not a number counts as 0.
pub open spec fn part_value(parts: Seq<Seq<char>>, i: int) -> u64 {
    if 0 <= i < parts.len() {
        match parse_u64(parts[i]) {
            Some(v) => v,
            None => 0,
        }
    } else {
        0
    }
}

/// Major, minor and patch of a version string such as `v0.5.10`.
pub open spec fn version_key(v: Seq<char>) -> (u64, u64, u64) {
    let parts = split(dots(strip_vs(trim(v))), '.');
    (part_value(parts, 0), part_value(parts, 1), part_value(parts, 2))
}

pub open spec fn key_greater(a: (u64, u64, u64), b: (u64, u64, u64)) -> bool {
    ||| a.0 > b.0
    ||| (a.0 == b.0 && a.1 > b.1)
    ||| (a.0 == b.0 && a.1 == b.1 && a.2 > b.2)
}

/// `candidate` is a higher dotted version than `current`.
pub open spec fn newer(candidate: Seq<char>, current: Seq<char>) -> bool {
    key_greater(version_key(candidate), version_key(current))
}

fn key_of(v: &str) -> (k: (u64, u64, u64))
    ensures
        k == version_key(v@),
{
    let t = trim_chars(&chars_of(v));
    let mut start: usize = 0;
    assert(t@.skip(0) =~= t@);
    while start < t.len() && t[start] == 'v'
        invariant
            start <= t.len(),
            strip_vs(t@) == strip_vs(t@.skip(start as int)),
        decreases t.len() - start,
    {
        assert(t@.skip(start as int).drop_first() =~= t@.skip(start + 1));
        start = start + 1;
    }
    let mut d: Vec<char> = Vec::new();
    let mut i: usize = start;
    while i < t.len()
        invariant
            start <= i <= t.len(),
            d@ == dots(t@.subrange(start as int, i as int)),
        decreases t.len() - i,
    {
        let c = t[i];
        d.push(if c == '-' || c == '+' { '.' } else { c });
        i = i + 1;
        assert(d@ =~= dots(t@.subrange(start as int, i as int)));
    }
    assert(t@.subrange(start as int, t@.len() as int) =~= t@.skip(start as int));
    assert(t@.skip(t@.len() as int) =~= seq![]);
    let parts = split_chars(&d, '.');
    let ghost p = split(d@, '.');
    assert(parts@.len() == p.len());
    let mut values: [u64; 3] = [0, 0, 0];
    let mut k: usize = 0;
    while k < 3
        invariant
            k <= 3,
            parts@.map_values(|q: Vec<char>| q@) == p,
            forall|j: int| 0 <= j < k ==> values[j] == part_value(p, j),
            forall|j: int| k <= j < 3 ==> values[j] == 0,
        decreases 3 - k,
    {
        if k < parts.len() {
            assert(parts@[k as int]@ == p[k as int]);
            values[k] = match parse_u64_chars(&parts[k]) {
                Some(v) => v,
                None => 0,
            };
        }
        k = k + 1;
    }
    (values[0], values[1], values[2])
}

/// True when `candidate` is a higher dotted version than `current` (a leading `v` is ignored).
pub fn is_newer(candidate: &str, current: &str) -> (r: bool)
    ensures
        r == newer(candidate@, current@),
{
    let a = key_of(candidate);
    let b = key_of(current);
    a.0 > b.0 || (a.0 == b.0 && a.1 > b.1) || (a.0 == b.0 && a.1 == b.1 && a.2 > b.2)
}

/// No version is newer than itself.
pub proof fn lemma_newer_irreflexive(a: Seq<char>)
    ensures
        !newer(a, a),
{
}

/// Of two versions at most one is newer than the other.
pub proof fn lemma_newer_asymmetric(a: Seq<char>, b: Seq<char>)
    ensures
        newer(a, b) ==> !newer(b, a),
{
}

/// A version newer than a newer one is newer still.
pub proof fn lemma_newer_transitive(a: Seq<char>, b: Seq<char>, c: Seq<char>)
    requires
        newer(a, b),
        newer(b, c),
    ensures
        newer(a, c),
{
}

/// The GitHub repository the app updates from.
pub const REPO: &'static str = "ChickenStrxps/gmod-manager";

pub const EXE_ASSET: &'static str = "gmod-manager.exe";

pub const SHA_ASSET: &'static str = "gmod-manager.exe.sha256";

/// The largest build an update downloads.
pub const MAX_EXE_BYTES: u64 = 268435456;

/// A newer release and where its build and checksum are.
#[derive(Clone, Debug)]
pub struct Release {
    pub version: String,
    pub exe_url: String,
    pub exe_size: u64,
    pub sha_url: String,
}

/// The first asset of a release with the given name.
pub open spec fn find_asset(assets: Seq<Json>, name: Seq<char>) -> Option<Json>
    decreases assets.len(),
{
    if assets.len() == 0 {
        None
    } else if assets[0].at("name"@).str_of() == Some(name) {
        Some(assets[0])
    } else {
        find_asset(assets.drop_first(), name)
    }
}

/// What a release response of GitHub's API offers over the running `current` version: `None`
/// unless its tag is newer and it has both the build and its checksum.
pub open spec fn spec_release(value: Json, current: Seq<char>) -> Option<(Seq<char>, Seq<char>, u64, Seq<char>)> {
    let tag = text_of(value.at("tag_name"@));
    let assets = match value.at("assets"@).array_of() {
        Some(a) => a,
        None => seq![],
    };
    if !newer(tag, current) {
        None
    } else {
        match (find_asset(assets, EXE_ASSET@), find_asset(assets, SHA_ASSET@)) {
            (Some(exe), Some(sha)) => Some(
                (
                    strip_vs(tag),
                    text_of(exe.at("browser_download_url"@)),
                    match exe.at("size"@).u64_of() {
                        Some(n) => n,
                        None => 0,
                    },
                    text_of(sha.at("browser_download_url"@)),
                ),
            ),
            _ => None,
        }
    }
}

fn find_asset_in<'a>(assets: &'a Vec<Json>, name: &str) -> (r: Option<&'a Json>)
    ensures
        match r {
            Some(a) => find_asset(assets@, name@) == Some(*a),
            None => find_asset(assets@, name@) is None,
        },
{
    let mut i: usize = 0;
    assert(assets@.skip(0) =~= assets@);
    while i < assets.len()
        invariant
            i <= assets@.len(),
            find_asset(assets@, name@) == find_asset(assets@.skip(i as int), name@),
        decreases assets.len() - i,
    {
        assert(assets@.skip(i as int).drop_first() =~= assets@.skip(i + 1));
        assert(assets@.skip(i as int)[0] == assets@[i as int]);
        let named = match assets[i].get("name") {
            Some(n) => match n.as_str() {
                Some(t) => crate::text::str_eq(t, name),
                None => false,
            },
            None => false,
        };
        if named {
            return Some(&assets[i]);
        }
        i = i + 1;
    }
    None
}

fn text_member(v: &Json, key: &str) -> (r: String)
    ensures
        r@ == text_of(v.at(key@)),
{
    match v.get(key) {
        Some(m) => match m.as_str() {
            Some(t) => t.to_string(),
            None => String::new(),
        },
        None => String::new(),
    }
}

/// Reads the text of GitHub's answer about the latest release: its JSON error, or what
/// `latest_release` makes of the value.
pub fn release_from_text(body: &str, current: &str) -> (r: Result<Option<Release>, String>)
    ensures
        match crate::json::json_text(body@) {
            Err(e) => r matches Err(m) && m@ == e,
            Ok(v) => r matches Ok(o) && match o {
                Some(rel) => spec_release(v, current@) == Some(
                    (rel.version@, rel.exe_url@, rel.exe_size, rel.sha_url@),
                ),
                None => spec_release(v, current@) is None,
            },
        },
{
    match crate::json::parse_json(body) {
        Err(e) => Err(e),
        Ok(v) => Ok(latest_release(&v, current)),
    }
}

/// Reads GitHub's answer about the latest release: the release when it is newer than `current`
/// and carries both the build and its checksum.
pub fn latest_release(value: &Json, current: &str) -> (r: Option<Release>)
    ensures
        match r {
            Some(rel) => spec_release(*value, current@) == Some(
                (rel.version@, rel.exe_url@, rel.exe_size, rel.sha_url@),
            ),
            None => spec_release(*value, current@) is None,
        },
{
    let tag = text_member(value, "tag_name");
    if !is_newer(tag.as_str(), current) {
        return None;
    }
    let empty: Vec<Json> = Vec::new();
    let assets: &Vec<Json> = match value.get("assets") {
        Some(a) => match a.as_array() {
            Some(list) => list,
            None => &empty,
        },
        None => &empty,
    };
    let exe = find_asset_in(assets, EXE_ASSET);
    let sha = find_asset_in(assets, SHA_ASSET);
    match (exe, sha) {
        (Some(exe), Some(sha)) => {
            let t = chars_of(tag.as_str());
            let mut start: usize = 0;
            assert(t@.skip(0) =~= t@);
            while start < t.len() && t[start] == 'v'
                invariant
                    start <= t@.len(),
                    strip_vs(t@) == strip_vs(t@.skip(start as int)),
                decreases t.len() - start,
            {
                assert(t@.skip(start as int).drop_first() =~= t@.skip(start + 1));
                start = start + 1;
            }
            let mut version: Vec<char> = Vec::new();
            let mut k = start;
            while k < t.len()
                invariant
                    start <= k <= t@.len(),
                    version@ == t@.subrange(start as int, k as int),
                decreases t.len() - k,
            {
                version.push(t[k]);
                k = k + 1;
                assert(version@ =~= t@.subrange(start as int, k as int));
            }
            assert(version@ =~= t@.skip(start as int));
            let size = match exe.get("size") {
                Some(n) => match n.as_u64() {
                    Some(v) => v,
                    None => 0,
                },
                None => 0,
            };
            Some(
                Release {
                    version: string_of(&version),
                    exe_url: text_member(exe, "browser_download_url"),
                    exe_size: size,
                    sha_url: text_member(sha, "browser_download_url"),
                },
            )
        },
        _ => None,
    }
}

/// A release whose build size is 0 or above `MAX_EXE_BYTES` is not downloaded.
pub fn plausible_size(release: &Release) -> (r: Result<(), String>)
    ensures
        r is Ok <==> (release.exe_size != 0 && release.exe_size <= MAX_EXE_BYTES),
        r matches Err(e) ==> e@ == "The update file looks wrong; skipping it."@,
{
    if release.exe_size == 0 || release.exe_size > MAX_EXE_BYTES {
        return Err("The update file looks wrong; skipping it.".to_string());
    }
    Ok(())
}

/// The checksum a `.sha256` file gives: its first word, in lower case.
pub open spec fn spec_expected_digest(text: Seq<char>) -> Seq<char> {
    let w = crate::game::first_ws(trim_start(text));
    let t = trim_start(text);
    ascii_lower(if w < 0 {
        t
    } else {
        t.take(w)
    })
}

/// Reads the checksum out of a `.sha256` file.
pub fn expected_digest(text: &str) -> (r: String)
    ensures
        r@ == spec_expected_digest(text@),
{
    let t = crate::text::trim_start_chars(&chars_of(text));
    let mut w: usize = 0;
    assert(t@.skip(0) =~= t@);
    while w < t.len() && !crate::text::is_whitespace(t[w])
        invariant
            w <= t@.len(),
            forall|k: int| 0 <= k < w ==> !crate::text::is_ws(#[trigger] t@[k]),
        decreases t.len() - w,
    {
        w = w + 1;
    }
    proof {
        lemma_first_ws_at(t@, w as int);
    }
    let mut word: Vec<char> = Vec::new();
    let mut k: usize = 0;
    while k < w
        invariant
            k <= w,
            w <= t@.len(),
            word@ == t@.take(k as int),
        decreases w - k,
    {
        word.push(t[k]);
        k = k + 1;
        assert(word@ =~= t@.take(k as int));
    }
    if w == t.len() {
        assert(t@.take(w as int) =~= t@);
    }
    string_of(&crate::text::lower_chars(&word))
}

proof fn lemma_first_ws_at(s: Seq<char>, w: int)
    requires
        0 <= w <= s.len(),
        forall|k: int| 0 <= k < w ==> !crate::text::is_ws(#[trigger] s[k]),
        w < s.len() ==> crate::text::is_ws(s[w]),
    ensures
        w < s.len() ==> crate::game::first_ws(s) == w,
        w == s.len() ==> crate::game::first_ws(s) < 0,
    decreases w,
{
    if w > 0 {
        lemma_first_ws_at(s.drop_first(), w - 1);
        assert(!crate::text::is_ws(s[0]));
    }
}

/// A download is taken when it has the announced size, starts like a Windows executable (`MZ`)
/// and its SHA-256 (in lower-case hex) is the expected one.
pub fn check_download(total: u64, release: &Release, head: &[u8], actual: &str, expected: &str) -> (r: Result<(), String>)
    ensures
        r is Ok <==> (total == release.exe_size && head@ == seq![0x4Du8, 0x5Au8] && actual@ == expected@),
        r matches Err(e) ==> e@ == "The update didn't download correctly. Try again later."@,
{
    let head_ok = head.len() == 2 && head[0] == 0x4Du8 && head[1] == 0x5Au8;
    proof {
        if head@ == seq![0x4Du8, 0x5Au8] {
            assert(head@[0] == 0x4Du8 && head@[1] == 0x5Au8);
        }
        if head_ok {
            assert(head@ =~= seq![0x4Du8, 0x5Au8]);
        }
    }
    if total != release.exe_size || !head_ok || !crate::text::str_eq(actual, expected) {
        return Err("The update didn't download correctly. Try again later.".to_string());
    }
    Ok(())
}

} // verus!
