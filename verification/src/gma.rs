//! The header and file index of GMA addon archives, read from the bytes at their start.

use crate::text::{
    ascii_lower, chars_of, decimal, eq_ignore_ascii_case, push_all, push_decimal, push_str, split,
    split_chars, string_of,
};
use crate::utf8::{utf8, utf8_bytes};
use vstd::prelude::*;

verus! {

/// The text of `bytes` as `String::from_utf8_lossy` decodes it.
pub uninterp spec fn utf8_lossy(bytes: Seq<u8>) -> Seq<char>;

/// `String::from_utf8_lossy`, owned. Its documentation promises the decoded text for valid
/// UTF-8, which is what this states; how invalid sequences are replaced is left to the name
/// `utf8_lossy`.
#[verifier::external_body]
fn lossy_string(bytes: &[u8]) -> (r: String)
    ensures
        r@ == utf8_lossy(bytes@),
        forall|s: Seq<char>| bytes@ == utf8(s) ==> r@ == s,
{
    String::from_utf8_lossy(bytes).into_owned()
}

/// The text of a name stored in a GMA: the text these bytes encode when they are UTF-8, else
/// what `String::from_utf8_lossy` makes of them.
pub open spec fn decoded(bytes: Seq<u8>) -> Seq<char> {
    if exists|s: Seq<char>| utf8(s) == bytes {
        choose|s: Seq<char>| utf8(s) == bytes
    } else {
        utf8_lossy(bytes)
    }
}

pub const EARLY: &'static str = "Addon file ended early.";

/// The longest text a GMA header may hold.
pub const CSTR_MAX: usize = 65536;

/// The file name the manager keeps in each addon folder it unpacks.
pub const MARKER: &'static str = "gmm.json";

/// The number of bytes other than 0 from `pos` on.
pub open spec fn nonzero_run(b: Seq<u8>, pos: int) -> nat
    decreases b.len() - pos,
{
    if 0 <= pos < b.len() && b[pos] != 0 {
        1 + nonzero_run(b, pos + 1)
    } else {
        0
    }
}

/// `k` more bytes from `pos`: the position after them; `Ok(None)` when more must be read first,
/// an error when the archive has ended.
pub open spec fn need(b: Seq<u8>, pos: int, k: int, at_end: bool) -> Result<Option<int>, Seq<char>> {
    if pos + k <= b.len() {
        Ok(Some(pos + k))
    } else if at_end {
        Err(EARLY@)
    } else {
        Ok(None)
    }
}

/// A zero-terminated text at `pos`: the position after its terminator and its bytes.
pub open spec fn spec_cstr(b: Seq<u8>, pos: int, at_end: bool) -> Result<
    Option<(int, Seq<u8>)>,
    Seq<char>,
> {
    let n = nonzero_run(b, pos);
    if n > CSTR_MAX {
        Err("Addon header is corrupt."@)
    } else if pos + n >= b.len() {
        if at_end {
            Err(EARLY@)
        } else {
            Ok(None)
        }
    } else {
        Ok(Some((pos + n + 1, b.subrange(pos, pos + n))))
    }
}

/// Skips the list of required content: texts up to and including an empty one.
pub open spec fn skip_required(b: Seq<u8>, pos: int, at_end: bool) -> Result<Option<int>, Seq<char>>
    decreases b.len() - pos,
{
    match spec_cstr(b, pos, at_end) {
        Err(e) => Err(e),
        Ok(None) => Ok(None),
        Ok(Some((next, s))) => if s.len() == 0 {
            Ok(Some(next))
        } else {
            skip_required(b, next, at_end)
        },
    }
}

/// Skips `k` texts.
pub open spec fn skip_cstrs(b: Seq<u8>, pos: int, k: nat, at_end: bool) -> Result<
    Option<int>,
    Seq<char>,
>
    decreases k,
{
    if k == 0 {
        Ok(Some(pos))
    } else {
        match spec_cstr(b, pos, at_end) {
            Err(e) => Err(e),
            Ok(None) => Ok(None),
            Ok(Some((next, _))) => skip_cstrs(b, next, (k - 1) as nat, at_end),
        }
    }
}

/// The little-endian `u64` at `pos`.
pub open spec fn le_u64(b: Seq<u8>, pos: int) -> u64 {
    (b[pos] as u64) | ((b[pos + 1] as u64) << 8u64) | ((b[pos + 2] as u64) << 16u64) | ((b[pos
        + 3] as u64) << 24u64) | ((b[pos + 4] as u64) << 32u64) | ((b[pos + 5] as u64) << 40u64)
        | ((b[pos + 6] as u64) << 48u64) | ((b[pos + 7] as u64) << 56u64)
}

/// Four zero bytes at `pos`: the little-endian `u32` there is 0.
pub open spec fn zero_u32(b: Seq<u8>, pos: int) -> bool {
    b[pos] == 0 && b[pos + 1] == 0 && b[pos + 2] == 0 && b[pos + 3] == 0
}

pub open spec fn unsafe_entry(name: Seq<char>) -> Seq<char> {
    "Addon contains an unsafe path: "@ + name
}

/// A part of a path that is empty or names the folder itself or its parent.
pub open spec fn bad_part(p: Seq<char>) -> bool {
    p.len() == 0 || p == "."@ || p == ".."@
}

/// A path stored in a GMA is used as given when it is relative, has no empty, `.` or `..` parts,
/// no `\`, `:` or NUL, and is not the manager's marker file.
pub open spec fn spec_safe_entry(name: Seq<char>) -> Result<Seq<char>, Seq<char>> {
    if name.len() == 0 || name.contains('\\') || name.contains(':') || name.contains('\0')
        || name[0] == '/' {
        Err(unsafe_entry(name))
    } else if exists|k: int| 0 <= k < split(name, '/').len() && bad_part(#[trigger] split(name, '/')[k]) {
        Err(unsafe_entry(name))
    } else if ascii_lower(name) == MARKER@ {
        Err(unsafe_entry(name))
    } else {
        Ok(name)
    }
}

/// The file index from `pos` on: each entry's path and size, up to a zero entry number.
pub open spec fn spec_index(
    b: Seq<u8>,
    pos: int,
    at_end: bool,
    acc: Seq<(Seq<char>, u64)>,
) -> Result<Option<(int, Seq<(Seq<char>, u64)>)>, Seq<char>>
    decreases b.len() - pos,
{
    match need(b, pos, 4, at_end) {
        Err(e) => Err(e),
        Ok(None) => Ok(None),
        Ok(Some(p1)) => if zero_u32(b, pos) {
            Ok(Some((p1, acc)))
        } else {
            match spec_cstr(b, p1, at_end) {
                Err(e) => Err(e),
                Ok(None) => Ok(None),
                Ok(Some((p2, name))) => match need(b, p2, 12, at_end) {
                    Err(e) => Err(e),
                    Ok(None) => Ok(None),
                    Ok(Some(p3)) => if b[p2 + 7] >= 0x80 {
                        Err("Addon index is corrupt."@)
                    } else {
                        match spec_safe_entry(decoded(name)) {
                            Err(e) => Err(e),
                            Ok(path) => spec_index(b, p3, at_end, acc.push((path, le_u64(b, p2)))),
                        }
                    },
                },
            }
        },
    }
}

/// Reads a GMA's header and file index from the bytes read so far: where the file data starts
/// and each file's path and size; `Ok(None)` when more bytes are needed; an error when the
/// archive is not a GMA this can read.
pub open spec fn spec_gma_header(b: Seq<u8>, at_end: bool) -> Result<
    Option<(int, Seq<(Seq<char>, u64)>)>,
    Seq<char>,
> {
    match need(b, 0, 4, at_end) {
        Err(e) => Err(e),
        Ok(None) => Ok(None),
        Ok(Some(_)) => if b.subrange(0, 4) != seq![0x47u8, 0x4Du8, 0x41u8, 0x44u8] {
            Err("Library copy is not a GMA addon."@)
        } else {
            match need(b, 4, 1, at_end) {
                Err(e) => Err(e),
                Ok(None) => Ok(None),
                Ok(Some(_)) => if b[4] > 3 {
                    Err("Unsupported GMA version "@ + decimal(b[4] as nat) + "."@)
                } else {
                    match need(b, 5, 16, at_end) {
                        Err(e) => Err(e),
                        Ok(None) => Ok(None),
                        Ok(Some(p)) => match (if b[4] > 1 {
                            skip_required(b, p, at_end)
                        } else {
                            Ok(Some(p))
                        }) {
                            Err(e) => Err(e),
                            Ok(None) => Ok(None),
                            Ok(Some(p2)) => match skip_cstrs(b, p2, 3, at_end) {
                                Err(e) => Err(e),
                                Ok(None) => Ok(None),
                                Ok(Some(p3)) => match need(b, p3, 4, at_end) {
                                    Err(e) => Err(e),
                                    Ok(None) => Ok(None),
                                    Ok(Some(p4)) => spec_index(b, p4, at_end, seq![]),
                                },
                            },
                        },
                    }
                },
            }
        },
    }
}

pub open spec fn cstr_view(r: Result<Option<(usize, Vec<u8>)>, String>) -> Result<
    Option<(int, Seq<u8>)>,
    Seq<char>,
> {
    match r {
        Err(e) => Err(e@),
        Ok(None) => Ok(None),
        Ok(Some((p, v))) => Ok(Some((p as int, v@))),
    }
}

/// Reads a zero-terminated text at `pos`.
pub fn read_cstr(b: &[u8], pos: usize, at_end: bool) -> (r: Result<Option<(usize, Vec<u8>)>, String>)
    requires
        pos <= b.len(),
    ensures
        cstr_view(r) == spec_cstr(b@, pos as int, at_end),
        r matches Ok(Some((p, _))) ==> pos < p <= b.len(),
{
    let mut i = pos;
    while i < b.len() && b[i] != 0 && i - pos <= CSTR_MAX
        invariant
            pos <= i <= b.len(),
            i - pos <= CSTR_MAX + 1,
            nonzero_run(b@, pos as int) == (i - pos) + nonzero_run(b@, i as int),
        decreases b.len() - i,
    {
        i = i + 1;
    }
    if i - pos > CSTR_MAX {
        return Err("Addon header is corrupt.".to_string());
    }
    if i >= b.len() {
        if at_end {
            return Err(EARLY.to_string());
        }
        return Ok(None);
    }
    let mut v: Vec<u8> = Vec::new();
    let mut k = pos;
    while k < i
        invariant
            pos <= k <= i,
            i < b.len(),
            v@ == b@.subrange(pos as int, k as int),
        decreases i - k,
    {
        v.push(b[k]);
        k = k + 1;
        assert(v@ =~= b@.subrange(pos as int, k as int));
    }
    Ok(Some((i + 1, v)))
}

/// Validates a path stored inside a GMA; `Ok` carries the path as given.
pub fn safe_entry(name: &str) -> (r: Result<String, String>)
    ensures
        crate::validate::string_result(r) == spec_safe_entry(name@),
{
    let v = chars_of(name);
    let mut bad = v.len() == 0 || v[0] == '/';
    let mut i: usize = 0;
    while i < v.len()
        invariant
            i <= v@.len(),
            bad == (v@.len() == 0 || v@[0] == '/' || exists|k: int| 0 <= k < i && (v@[k] == '\\' || v@[k] == ':' || v@[k] == '\0')),
        decreases v.len() - i,
    {
        if v[i] == '\\' || v[i] == ':' || v[i] == '\0' {
            bad = true;
        }
        i = i + 1;
    }
    proof {
        if name@.contains('\\') {
            let k = choose|k: int| 0 <= k < v@.len() && v@[k] == '\\';
        }
        if name@.contains(':') {
            let k = choose|k: int| 0 <= k < v@.len() && v@[k] == ':';
        }
        if name@.contains('\0') {
            let k = choose|k: int| 0 <= k < v@.len() && v@[k] == '\0';
        }
    }
    let message = {
        let mut m: Vec<char> = Vec::new();
        push_str(&mut m, "Addon contains an unsafe path: ");
        push_all(&mut m, &v);
        string_of(&m)
    };
    if bad {
        return Err(message);
    }
    let parts = split_chars(&v, '/');
    let ghost ps = split(name@, '/');
    let mut k: usize = 0;
    while k < parts.len()
        invariant
            k <= parts@.len(),
            parts@.map_values(|p: Vec<char>| p@) == ps,
            parts@.len() == ps.len(),
            ps == split(name@, '/'),
            forall|j: int| 0 <= j < k ==> !bad_part(#[trigger] ps[j]),
            message@ == unsafe_entry(name@),
            !(name@.len() == 0 || name@.contains('\\') || name@.contains(':') || name@.contains('\0')
                || name@[0] == '/'),
        decreases parts.len() - k,
    {
        assert(parts@[k as int]@ == ps[k as int]);
        let part = &parts[k];
        proof {
            reveal_strlit(".");
            reveal_strlit("..");
        }
        if part.len() == 0 || (part.len() == 1 && part[0] == '.') || (part.len() == 2 && part[0] == '.'
            && part[1] == '.') {
            proof {
                if part.len() == 1 {
                    assert(part@ =~= "."@);
                }
                if part.len() == 2 {
                    assert(part@ =~= ".."@);
                }
                assert(bad_part(ps[k as int]));
            }
            return Err(message);
        }
        proof {
            if part@ == "."@ {
                assert(part@.len() == 1);
            }
            if part@ == ".."@ {
                assert(part@.len() == 2);
                assert(part@[0] == '.' && part@[1] == '.');
            }
        }
        k = k + 1;
    }
    proof {
        reveal_strlit("gmm.json");
        assert(ascii_lower(MARKER@) =~= MARKER@);
    }
    if eq_ignore_ascii_case(name, MARKER) {
        return Err(message);
    }
    Ok(name.to_string())
}

/// One file of a GMA's index.
#[derive(Clone, Debug)]
pub struct GmaEntry {
    /// The relative path, with `/` between its parts.
    pub path: String,
    pub size: u64,
    /// An earlier entry has the same path up to ASCII case: this file replaces that one.
    pub replaces: bool,
}

/// Where reading a GMA's header stands.
#[derive(Clone, Debug)]
pub enum GmaHeader {
    /// More bytes are needed.
    NeedMore,
    /// The file data starts at `data_start` and holds the entries' bytes in index order.
    Done { data_start: usize, entries: Vec<GmaEntry> },
}

pub open spec fn entries_match(v: Seq<GmaEntry>, es: Seq<(Seq<char>, u64)>) -> bool {
    &&& v.len() == es.len()
    &&& forall|i: int|
        0 <= i < v.len() ==> {
            &&& (#[trigger] v[i]).path@ == es[i].0
            &&& v[i].size == es[i].1
            &&& v[i].replaces == exists|j: int| 0 <= j < i && ascii_lower(es[j].0) == ascii_lower(es[i].0)
        }
}

pub open spec fn header_matches(r: Result<GmaHeader, String>, s: Result<Option<(int, Seq<(Seq<char>, u64)>)>, Seq<char>>) -> bool {
    match s {
        Err(e) => r matches Err(m) && m@ == e,
        Ok(None) => r matches Ok(GmaHeader::NeedMore),
        Ok(Some((start, es))) => r matches Ok(GmaHeader::Done { data_start, entries }) && data_start
            == start && entries_match(entries@, es),
    }
}

fn early<T>(at_end: bool) -> (r: Result<Option<T>, String>)
    ensures
        at_end ==> (r matches Err(e) && e@ == EARLY@),
        !at_end ==> (r matches Ok(None)),
{
    if at_end {
        Err(EARLY.to_string())
    } else {
        Ok(None)
    }
}

fn read_u64_le(b: &[u8], pos: usize) -> (r: u64)
    requires
        pos + 8 <= b.len(),
    ensures
        r == le_u64(b@, pos as int),
{
    (b[pos] as u64) | ((b[pos + 1] as u64) << 8u64) | ((b[pos + 2] as u64) << 16u64) | ((b[pos
        + 3] as u64) << 24u64) | ((b[pos + 4] as u64) << 32u64) | ((b[pos + 5] as u64) << 40u64)
        | ((b[pos + 6] as u64) << 48u64) | ((b[pos + 7] as u64) << 56u64)
}

pub open spec fn index_view(r: Result<Option<(usize, Vec<(String, u64)>)>, String>) -> Result<
    Option<(int, Seq<(Seq<char>, u64)>)>,
    Seq<char>,
> {
    match r {
        Err(e) => Err(e@),
        Ok(None) => Ok(None),
        Ok(Some((p, v))) => Ok(Some((p as int, pairs_view(v@)))),
    }
}

pub open spec fn pairs_view(v: Seq<(String, u64)>) -> Seq<(Seq<char>, u64)> {
    v.map_values(|x: (String, u64)| (x.0@, x.1))
}

fn read_index(b: &[u8], start: usize, at_end: bool) -> (r: Result<Option<(usize, Vec<(String, u64)>)>, String>)
    requires
        start <= b.len(),
    ensures
        index_view(r) == spec_index(b@, start as int, at_end, seq![]),
{
    let mut pos = start;
    let mut acc: Vec<(String, u64)> = Vec::new();
    assert(pairs_view(acc@) =~= seq![]);
    loop
        invariant
            start <= pos <= b.len(),
            spec_index(b@, start as int, at_end, seq![]) == spec_index(
                b@,
                pos as int,
                at_end,
                pairs_view(acc@),
            ),
        decreases b.len() - pos,
    {
        if b.len() - pos < 4 {
            return early(at_end);
        }
        if b[pos] == 0 && b[pos + 1] == 0 && b[pos + 2] == 0 && b[pos + 3] == 0 {
            return Ok(Some((pos + 4, acc)));
        }
        let (p2, name) = match read_cstr(b, pos + 4, at_end) {
            Err(e) => {
                return Err(e);
            },
            Ok(None) => {
                return Ok(None);
            },
            Ok(Some(x)) => x,
        };
        if b.len() - p2 < 12 {
            return early(at_end);
        }
        if b[p2 + 7] >= 0x80 {
            return Err("Addon index is corrupt.".to_string());
        }
        let text = lossy_string(&name);
        assert(text@ == decoded(name@));
        let path = match safe_entry(text.as_str()) {
            Err(e) => {
                return Err(e);
            },
            Ok(p) => p,
        };
        let size = read_u64_le(b, p2);
        let ghost before = pairs_view(acc@);
        acc.push((path, size));
        assert(pairs_view(acc@) =~= before.push((text@, le_u64(b@, p2 as int))));
        pos = p2 + 12;
    }
}

fn skip_required_texts(b: &[u8], start: usize, at_end: bool) -> (r: Result<Option<usize>, String>)
    requires
        start <= b.len(),
    ensures
        match r {
            Err(e) => skip_required(b@, start as int, at_end) == Err::<Option<int>, _>(e@),
            Ok(None) => skip_required(b@, start as int, at_end) == Ok::<Option<int>, Seq<char>>(None),
            Ok(Some(p)) => skip_required(b@, start as int, at_end) == Ok::<_, Seq<char>>(Some(p as int)) && p <= b.len(),
        },
{
    let mut pos = start;
    loop
        invariant
            start <= pos <= b.len(),
            skip_required(b@, start as int, at_end) == skip_required(b@, pos as int, at_end),
        decreases b.len() - pos,
    {
        match read_cstr(b, pos, at_end) {
            Err(e) => {
                return Err(e);
            },
            Ok(None) => {
                return Ok(None);
            },
            Ok(Some((next, text))) => {
                if text.len() == 0 {
                    return Ok(Some(next));
                }
                pos = next;
            },
        }
    }
}

fn skip_texts(b: &[u8], start: usize, k: usize, at_end: bool) -> (r: Result<Option<usize>, String>)
    requires
        start <= b.len(),
    ensures
        match r {
            Err(e) => skip_cstrs(b@, start as int, k as nat, at_end) == Err::<Option<int>, _>(e@),
            Ok(None) => skip_cstrs(b@, start as int, k as nat, at_end) == Ok::<Option<int>, Seq<char>>(None),
            Ok(Some(p)) => skip_cstrs(b@, start as int, k as nat, at_end) == Ok::<_, Seq<char>>(Some(p as int)) && p <= b.len(),
        },
{
    let mut pos = start;
    let mut left = k;
    while left > 0
        invariant
            start <= pos <= b.len(),
            left <= k,
            skip_cstrs(b@, start as int, k as nat, at_end) == skip_cstrs(b@, pos as int, left as nat, at_end),
        decreases left,
    {
        match read_cstr(b, pos, at_end) {
            Err(e) => {
                return Err(e);
            },
            Ok(None) => {
                return Ok(None);
            },
            Ok(Some((next, _))) => {
                pos = next;
            },
        }
        left = left - 1;
    }
    Ok(Some(pos))
}

fn mark_replacements(pairs: Vec<(String, u64)>) -> (r: Vec<GmaEntry>)
    ensures
        entries_match(r@, pairs_view(pairs@)),
{
    let ghost es = pairs_view(pairs@);
    let mut r: Vec<GmaEntry> = Vec::new();
    let mut i: usize = 0;
    while i < pairs.len()
        invariant
            i <= pairs@.len(),
            es == pairs_view(pairs@),
            r@.len() == i,
            forall|k: int|
                0 <= k < i ==> {
                    &&& (#[trigger] r@[k]).path@ == es[k].0
                    &&& r@[k].size == es[k].1
                    &&& r@[k].replaces == exists|j: int| 0 <= j < k && ascii_lower(es[j].0) == ascii_lower(es[k].0)
                },
        decreases pairs.len() - i,
    {
        let mut seen = false;
        let mut j: usize = 0;
        while j < i
            invariant
                j <= i,
                i < pairs@.len(),
                es == pairs_view(pairs@),
                seen == exists|m: int| 0 <= m < j && ascii_lower(es[m].0) == ascii_lower(es[i as int].0),
            decreases i - j,
        {
            assert(es[j as int].0 == pairs@[j as int].0@);
            assert(es[i as int].0 == pairs@[i as int].0@);
            if eq_ignore_ascii_case(pairs[j].0.as_str(), pairs[i].0.as_str()) {
                seen = true;
            }
            j = j + 1;
        }
        r.push(GmaEntry { path: pairs[i].0.clone(), size: pairs[i].1, replaces: seen });
        i = i + 1;
    }
    r
}

/// Reads a GMA's header and file index from its first bytes. `at_end` says that `b` is the
/// whole archive; otherwise running out of bytes asks for more.
pub fn parse_gma_header(b: &[u8], at_end: bool) -> (r: Result<GmaHeader, String>)
    ensures
        header_matches(r, spec_gma_header(b@, at_end)),
{
    if b.len() < 4 {
        return if at_end {
            Err(EARLY.to_string())
        } else {
            Ok(GmaHeader::NeedMore)
        };
    }
    if !(b[0] == 0x47u8 && b[1] == 0x4Du8 && b[2] == 0x41u8 && b[3] == 0x44u8) {
        proof {
            if b@.subrange(0, 4) == seq![0x47u8, 0x4Du8, 0x41u8, 0x44u8] {
                assert(b@.subrange(0, 4)[0] == b@[0]);
                assert(b@.subrange(0, 4)[1] == b@[1]);
                assert(b@.subrange(0, 4)[2] == b@[2]);
                assert(b@.subrange(0, 4)[3] == b@[3]);
            }
        }
        return Err("Library copy is not a GMA addon.".to_string());
    }
    assert(b@.subrange(0, 4) =~= seq![0x47u8, 0x4Du8, 0x41u8, 0x44u8]);
    if b.len() < 5 {
        return if at_end {
            Err(EARLY.to_string())
        } else {
            Ok(GmaHeader::NeedMore)
        };
    }
    let version = b[4];
    if version > 3 {
        let mut m: Vec<char> = Vec::new();
        push_str(&mut m, "Unsupported GMA version ");
        push_decimal(&mut m, version as u64);
        push_str(&mut m, ".");
        return Err(string_of(&m));
    }
    if b.len() < 21 {
        return if at_end {
            Err(EARLY.to_string())
        } else {
            Ok(GmaHeader::NeedMore)
        };
    }
    let p2 = if version > 1 {
        match skip_required_texts(b, 21, at_end) {
            Err(e) => {
                return Err(e);
            },
            Ok(None) => {
                return Ok(GmaHeader::NeedMore);
            },
            Ok(Some(p)) => p,
        }
    } else {
        21
    };
    let p3 = match skip_texts(b, p2, 3, at_end) {
        Err(e) => {
            return Err(e);
        },
        Ok(None) => {
            return Ok(GmaHeader::NeedMore);
        },
        Ok(Some(p)) => p,
    };
    if b.len() - p3 < 4 {
        return if at_end {
            Err(EARLY.to_string())
        } else {
            Ok(GmaHeader::NeedMore)
        };
    }
    match read_index(b, p3 + 4, at_end) {
        Err(e) => Err(e),
        Ok(None) => Ok(GmaHeader::NeedMore),
        Ok(Some((start, pairs))) => {
            let entries = mark_replacements(pairs);
            Ok(GmaHeader::Done { data_start: start, entries })
        },
    }
}

/// The little-endian bytes of a `u32`.
pub open spec fn le32(v: u32) -> Seq<u8> {
    seq![
        (v & 0xff) as u8,
        ((v >> 8u32) & 0xff) as u8,
        ((v >> 16u32) & 0xff) as u8,
        ((v >> 24u32) & 0xff) as u8,
    ]
}

/// The little-endian bytes of a `u64`.
pub open spec fn le64(v: u64) -> Seq<u8> {
    seq![
        (v & 0xff) as u8,
        ((v >> 8u64) & 0xff) as u8,
        ((v >> 16u64) & 0xff) as u8,
        ((v >> 24u64) & 0xff) as u8,
        ((v >> 32u64) & 0xff) as u8,
        ((v >> 40u64) & 0xff) as u8,
        ((v >> 48u64) & 0xff) as u8,
        ((v >> 56u64) & 0xff) as u8,
    ]
}

/// The start of the small archives `test_gma` builds: `GMAD`, version 3, a zero SteamID and
/// timestamp, no required content, the name `Test addon`, the description `{}`, the author
/// `Author` and addon version 1.
pub open spec fn test_gma_start() -> Seq<u8> {
    seq![
        0x47u8, 0x4D, 0x41, 0x44, 3,
        0, 0, 0, 0, 0, 0, 0, 0, 0, 0, 0, 0, 0, 0, 0, 0,
        0,
        0x54, 0x65, 0x73, 0x74, 0x20, 0x61, 0x64, 0x64, 0x6F, 0x6E, 0,
        0x7B, 0x7D, 0,
        0x41, 0x75, 0x74, 0x68, 0x6F, 0x72, 0,
        1, 0, 0, 0,
    ]
}

/// The index entry of the file numbered `number`.
pub open spec fn entry_bytes(file: (Seq<char>, Seq<u8>), number: u32) -> Seq<u8> {
    le32(number) + utf8(file.0) + seq![0u8] + le64(file.1.len() as u64) + le32(0)
}

/// The index entries of `files`, numbered from 1.
pub open spec fn index_bytes(files: Seq<(Seq<char>, Seq<u8>)>) -> Seq<u8>
    decreases files.len(),
{
    if files.len() == 0 {
        seq![]
    } else {
        index_bytes(files.drop_last()) + entry_bytes(files.last(), files.len() as u32)
    }
}

/// The files' contents, one after another.
pub open spec fn data_bytes(files: Seq<(Seq<char>, Seq<u8>)>) -> Seq<u8>
    decreases files.len(),
{
    if files.len() == 0 {
        seq![]
    } else {
        data_bytes(files.drop_last()) + files.last().1
    }
}

/// A small version 3 GMA holding `files`.
pub open spec fn spec_test_gma(files: Seq<(Seq<char>, Seq<u8>)>) -> Seq<u8> {
    test_gma_start() + index_bytes(files) + le32(0) + data_bytes(files) + le32(0)
}

pub open spec fn files_view(files: Seq<(String, Vec<u8>)>) -> Seq<(Seq<char>, Seq<u8>)> {
    files.map_values(|f: (String, Vec<u8>)| (f.0@, f.1@))
}

fn push_bytes(dst: &mut Vec<u8>, src: &[u8])
    ensures
        final(dst)@ == old(dst)@ + src@,
{
    let ghost start = dst@;
    let mut i: usize = 0;
    while i < src.len()
        invariant
            i <= src.len(),
            dst@ == start + src@.take(i as int),
        decreases src.len() - i,
    {
        dst.push(src[i]);
        i = i + 1;
        assert(dst@ =~= start + src@.take(i as int));
    }
    assert(src@.take(i as int) =~= src@);
}

fn push_le32(dst: &mut Vec<u8>, v: u32)
    ensures
        final(dst)@ == old(dst)@ + le32(v),
{
    let ghost start = dst@;
    dst.push((v & 0xff) as u8);
    dst.push(((v >> 8u32) & 0xff) as u8);
    dst.push(((v >> 16u32) & 0xff) as u8);
    dst.push(((v >> 24u32) & 0xff) as u8);
    assert(dst@ =~= start + le32(v));
}

fn push_le64(dst: &mut Vec<u8>, v: u64)
    ensures
        final(dst)@ == old(dst)@ + le64(v),
{
    let ghost start = dst@;
    dst.push((v & 0xff) as u8);
    dst.push(((v >> 8u64) & 0xff) as u8);
    dst.push(((v >> 16u64) & 0xff) as u8);
    dst.push(((v >> 24u64) & 0xff) as u8);
    dst.push(((v >> 32u64) & 0xff) as u8);
    dst.push(((v >> 40u64) & 0xff) as u8);
    dst.push(((v >> 48u64) & 0xff) as u8);
    dst.push(((v >> 56u64) & 0xff) as u8);
    assert(dst@ =~= start + le64(v));
}

/// Builds a small version 3 GMA holding `files`, for tests of the archive code.
pub fn test_gma(files: &Vec<(String, Vec<u8>)>) -> (r: Vec<u8>)
    requires
        files@.len() < 0xFFFF_FFFF,
    ensures
        r@ == spec_test_gma(files_view(files@)),
{
    let ghost fv = files_view(files@);
    let mut out: Vec<u8> = Vec::new();
    push_bytes(&mut out, &[0x47u8, 0x4D, 0x41, 0x44, 3]);
    push_bytes(&mut out, &[0u8; 16]);
    out.push(0);
    push_bytes(&mut out, &[0x54u8, 0x65, 0x73, 0x74, 0x20, 0x61, 0x64, 0x64, 0x6F, 0x6E, 0]);
    push_bytes(&mut out, &[0x7Bu8, 0x7D, 0]);
    push_bytes(&mut out, &[0x41u8, 0x75, 0x74, 0x68, 0x6F, 0x72, 0]);
    push_bytes(&mut out, &[1u8, 0, 0, 0]);
    assert(out@ =~= test_gma_start());
    let mut i: usize = 0;
    while i < files.len()
        invariant
            i <= files@.len(),
            files@.len() < 0xFFFF_FFFF,
            fv == files_view(files@),
            out@ == test_gma_start() + index_bytes(fv.take(i as int)),
        decreases files.len() - i,
    {
        let ghost before = out@;
        push_le32(&mut out, (i + 1) as u32);
        let name = utf8_bytes(&chars_of(files[i].0.as_str()));
        push_bytes(&mut out, &name);
        out.push(0);
        push_le64(&mut out, files[i].1.len() as u64);
        push_le32(&mut out, 0);
        assert(fv.take(i + 1).drop_last() =~= fv.take(i as int));
        assert(fv.take(i + 1).last() == fv[i as int]);
        assert(out@ =~= before + entry_bytes(fv[i as int], (i + 1) as u32));
        i = i + 1;
    }
    assert(fv.take(i as int) =~= fv);
    push_le32(&mut out, 0);
    let ghost mid = out@;
    let mut j: usize = 0;
    while j < files.len()
        invariant
            j <= files@.len(),
            fv == files_view(files@),
            out@ == mid + data_bytes(fv.take(j as int)),
        decreases files.len() - j,
    {
        push_bytes(&mut out, &files[j].1);
        assert(fv.take(j + 1).drop_last() =~= fv.take(j as int));
        assert(fv.take(j + 1).last() == fv[j as int]);
        j = j + 1;
        assert(out@ =~= mid + data_bytes(fv.take(j as int)));
    }
    assert(fv.take(j as int) =~= fv);
    push_le32(&mut out, 0);
    out
}

/// Each file's path and size, as an archive's index lists them.
pub open spec fn file_list(files: Seq<(Seq<char>, Seq<u8>)>) -> Seq<(Seq<char>, u64)> {
    files.map_values(|f: (Seq<char>, Seq<u8>)| (f.0, f.1.len() as u64))
}

/// Files that a GMA can carry and give back unchanged: fewer than `u32::MAX` of them, each with
/// a path that `spec_safe_entry` accepts and whose UTF-8 fits a header text, and a size below
/// `2^63`.
pub open spec fn storable(files: Seq<(Seq<char>, Seq<u8>)>) -> bool {
    &&& files.len() < 0xFFFF_FFFF
    &&& forall|i: int| 0 <= i < files.len() ==> spec_safe_entry(#[trigger] files[i].0) is Ok
    &&& forall|i: int| 0 <= i < files.len() ==> utf8(#[trigger] files[i].0).len() <= CSTR_MAX
    &&& forall|i: int| 0 <= i < files.len() ==> (#[trigger] files[i].1).len() < 0x8000_0000_0000_0000
}

proof fn lemma_run(b: Seq<u8>, pos: int, n: int)
    requires
        0 <= pos,
        0 <= n,
        pos + n < b.len(),
        forall|k: int| pos <= k < pos + n ==> b[k] != 0,
        b[pos + n] == 0,
    ensures
        nonzero_run(b, pos) == n,
    decreases n,
{
    if n > 0 {
        lemma_run(b, pos + 1, n - 1);
    }
}

proof fn lemma_le32_nonzero(v: u32)
    requires
        v != 0,
    ensures
        !zero_u32(le32(v), 0),
{
    assert(v != 0 ==> !((v & 0xff) as u8 == 0 && ((v >> 8u32) & 0xff) as u8 == 0 && ((v >> 16u32)
        & 0xff) as u8 == 0 && ((v >> 24u32) & 0xff) as u8 == 0)) by (bit_vector);
}

proof fn lemma_le32_zero()
    ensures
        zero_u32(le32(0), 0),
{
    let z: u32 = 0;
    assert((z & 0xff) as u8 == 0 && ((z >> 8u32) & 0xff) as u8 == 0 && ((z >> 16u32) & 0xff) as u8
        == 0 && ((z >> 24u32) & 0xff) as u8 == 0) by (bit_vector)
        requires
            z == 0,
    ;
}

proof fn lemma_le64_read(v: u64)
    ensures
        le_u64(le64(v), 0) == v,
        v < 0x8000_0000_0000_0000 ==> le64(v)[7] < 0x80,
{
    let b = le64(v);
    assert(b[0] == (v & 0xff) as u8);
    assert(b[7] == ((v >> 56u64) & 0xff) as u8);
    assert(((v & 0xff) as u8 as u64) | ((((v >> 8u64) & 0xff) as u8 as u64) << 8u64) | ((((v
        >> 16u64) & 0xff) as u8 as u64) << 16u64) | ((((v >> 24u64) & 0xff) as u8 as u64) << 24u64)
        | ((((v >> 32u64) & 0xff) as u8 as u64) << 32u64) | ((((v >> 40u64) & 0xff) as u8 as u64)
        << 40u64) | ((((v >> 48u64) & 0xff) as u8 as u64) << 48u64) | ((((v >> 56u64) & 0xff) as u8
        as u64) << 56u64) == v) by (bit_vector);
    assert(v < 0x8000_0000_0000_0000 ==> (((v >> 56u64) & 0xff) as u8) < 0x80) by (bit_vector);
}

proof fn lemma_index_prefix(files: Seq<(Seq<char>, Seq<u8>)>, m: int)
    requires
        0 <= m <= files.len(),
    ensures
        index_bytes(files.take(m)).len() <= index_bytes(files).len(),
        index_bytes(files).subrange(0, index_bytes(files.take(m)).len() as int) == index_bytes(
            files.take(m),
        ),
    decreases files.len() - m,
{
    if m == files.len() {
        assert(files.take(m) =~= files);
        assert(index_bytes(files).subrange(0, index_bytes(files).len() as int) =~= index_bytes(files));
    } else {
        lemma_index_prefix(files, m + 1);
        let a = files.take(m);
        let c = files.take(m + 1);
        assert(c.drop_last() =~= a);
        let ia = index_bytes(a);
        let ic = index_bytes(c);
        assert(ic.subrange(0, ia.len() as int) =~= ia);
        assert(index_bytes(files).subrange(0, ia.len() as int) =~= ic.subrange(0, ia.len() as int));
    }
}

/// A text that is some text's UTF-8 decodes to that text.
pub proof fn lemma_decoded_utf8(s: Seq<char>)
    ensures
        decoded(utf8(s)) == s,
{
    assert(utf8(s) == utf8(s));
    let t = choose|t: Seq<char>| utf8(t) == utf8(s);
    crate::utf8::lemma_utf8_injective(t, s);
}

proof fn lemma_entry_step(
    b: Seq<u8>,
    pos: int,
    f: (Seq<char>, Seq<u8>),
    number: u32,
    at_end: bool,
    acc: Seq<(Seq<char>, u64)>,
)
    requires
        0 <= pos,
        number != 0,
        pos + entry_bytes(f, number).len() < b.len(),
        b.subrange(pos, pos + entry_bytes(f, number).len()) == entry_bytes(f, number),
        spec_safe_entry(f.0) is Ok,
        utf8(f.0).len() <= CSTR_MAX,
        f.1.len() < 0x8000_0000_0000_0000,
    ensures
        spec_index(b, pos, at_end, acc) == spec_index(
            b,
            pos + entry_bytes(f, number).len(),
            at_end,
            acc.push((f.0, f.1.len() as u64)),
        ),
{
    let e = entry_bytes(f, number);
    let name = f.0;
    let nb = utf8(name);
    let l = nb.len() as int;
    let v = f.1.len() as u64;
    let n32 = le32(number);
    let lb = le64(v);
    assert(e =~= n32 + nb + seq![0u8] + lb + le32(0));
    assert forall|j: int| 0 <= j < e.len() implies b[pos + j] == e[j] by {
        assert(b.subrange(pos, pos + e.len())[j] == b[pos + j]);
    }
    assert(!name.contains('\0'));
    crate::utf8::lemma_utf8_nonzero(name);
    lemma_le32_nonzero(number);
    assert(b[pos] == e[0] && b[pos + 1] == e[1] && b[pos + 2] == e[2] && b[pos + 3] == e[3]);
    assert(!zero_u32(b, pos));
    let p1 = pos + 4;
    assert forall|q: int| p1 <= q < p1 + l implies b[q] != 0 by {
        assert(b[q] == e[q - pos]);
        assert(e[q - pos] == nb[q - p1]);
    }
    assert(b[p1 + l] == e[4 + l]);
    lemma_run(b, p1, l);
    assert(b.subrange(p1, p1 + l) =~= nb) by {
        assert forall|q: int| 0 <= q < l implies b.subrange(p1, p1 + l)[q] == nb[q] by {
            assert(b[p1 + q] == e[4 + q]);
        }
    }
    let p2 = p1 + l + 1;
    lemma_le64_read(v);
    assert forall|q: int| 0 <= q < 8 implies b[p2 + q] == lb[q] by {
        assert(b[p2 + q] == e[5 + l + q]);
    }
    assert(b[p2 + 7] < 0x80);
    assert(le_u64(b, p2) == le_u64(lb, 0));
    lemma_decoded_utf8(name);
    assert(spec_safe_entry(name) == Ok::<_, Seq<char>>(name));
}

proof fn lemma_index_from(files: Seq<(Seq<char>, Seq<u8>)>, at_end: bool, k: int)
    requires
        storable(files),
        0 <= k <= files.len(),
    ensures
        spec_index(
            spec_test_gma(files),
            (test_gma_start().len() + index_bytes(files.take(k)).len()) as int,
            at_end,
            file_list(files.take(k)),
        ) == Ok::<_, Seq<char>>(
            Some(
                (
                    (test_gma_start().len() + index_bytes(files).len() + 4) as int,
                    file_list(files),
                ),
            ),
        ),
    decreases files.len() - k,
{
    let b = spec_test_gma(files);
    let st = test_gma_start();
    let ix = index_bytes(files);
    assert(b =~= st + ix + (le32(0) + data_bytes(files) + le32(0)));
    lemma_index_prefix(files, k);
    let pos: int = (st.len() + index_bytes(files.take(k)).len()) as int;
    if k == files.len() {
        assert(files.take(k) =~= files);
        lemma_le32_zero();
        assert(b[pos] == le32(0)[0] && b[pos + 1] == le32(0)[1] && b[pos + 2] == le32(0)[2] && b[pos
            + 3] == le32(0)[3]);
    } else {
        lemma_index_prefix(files, k + 1);
        let f = files[k];
        let c = files.take(k + 1);
        assert(c.drop_last() =~= files.take(k));
        assert(c.last() == f);
        let e = entry_bytes(f, (k + 1) as u32);
        let ik = index_bytes(files.take(k));
        assert(index_bytes(c) == ik + e);
        assert(b.subrange(pos, pos + e.len()) =~= e) by {
            assert forall|j: int| 0 <= j < e.len() implies b.subrange(pos, pos + e.len())[j] == e[j] by {
                assert(ix.subrange(0, (ik + e).len() as int)[ik.len() + j] == (ik + e)[ik.len() + j]);
            }
        }
        assert(spec_safe_entry(files[k].0) is Ok);
        assert(utf8(files[k].0).len() <= CSTR_MAX);
        assert(files[k].1.len() < 0x8000_0000_0000_0000);
        lemma_entry_step(b, pos, f, (k + 1) as u32, at_end, file_list(files.take(k)));
        assert(file_list(c) =~= file_list(files.take(k)).push((f.0, f.1.len() as u64)));
        lemma_index_from(files, at_end, k + 1);
    }
}

/// The three texts of `test_gma_start` and the empty list before them.
proof fn lemma_start_texts()
    ensures
        nonzero_run(test_gma_start(), 21) == 0,
        nonzero_run(test_gma_start(), 22) == 10,
        nonzero_run(test_gma_start(), 33) == 2,
        nonzero_run(test_gma_start(), 36) == 6,
{
    let st = test_gma_start();
    assert(st.len() == 47);
    assert(st[21] == 0);
    assert(nonzero_run(st, 32) == 0);
    assert(nonzero_run(st, 31) == 1);
    assert(nonzero_run(st, 30) == 2);
    assert(nonzero_run(st, 29) == 3);
    assert(nonzero_run(st, 28) == 4);
    assert(nonzero_run(st, 27) == 5);
    assert(nonzero_run(st, 26) == 6);
    assert(nonzero_run(st, 25) == 7);
    assert(nonzero_run(st, 24) == 8);
    assert(nonzero_run(st, 23) == 9);
    assert(nonzero_run(st, 22) == 10);
    assert(nonzero_run(st, 35) == 0);
    assert(nonzero_run(st, 34) == 1);
    assert(nonzero_run(st, 33) == 2);
    assert(nonzero_run(st, 42) == 0);
    assert(nonzero_run(st, 41) == 1);
    assert(nonzero_run(st, 40) == 2);
    assert(nonzero_run(st, 39) == 3);
    assert(nonzero_run(st, 38) == 4);
    assert(nonzero_run(st, 37) == 5);
    assert(nonzero_run(st, 36) == 6);
}

proof fn lemma_run_prefix(a: Seq<u8>, r: Seq<u8>, pos: int)
    requires
        0 <= pos,
        pos + nonzero_run(a, pos) < a.len(),
    ensures
        nonzero_run(a + r, pos) == nonzero_run(a, pos),
    decreases a.len() - pos,
{
    if nonzero_run(a, pos) > 0 {
        lemma_run_prefix(a, r, pos + 1);
    }
    assert((a + r)[pos] == a[pos]);
}

/// An archive built by `test_gma` reads back as the files it was built from: each path and size
/// in order, with the file data starting right after the index.
pub proof fn lemma_gma_round_trip(files: Seq<(Seq<char>, Seq<u8>)>, at_end: bool)
    requires
        storable(files),
    ensures
        spec_gma_header(spec_test_gma(files), at_end) == Ok::<_, Seq<char>>(
            Some(
                (
                    (test_gma_start().len() + index_bytes(files).len() + 4) as int,
                    file_list(files),
                ),
            ),
        ),
{
    let b = spec_test_gma(files);
    let st = test_gma_start();
    let rest = index_bytes(files) + le32(0) + data_bytes(files) + le32(0);
    assert(b =~= st + rest);
    assert(st.len() == 47);
    lemma_start_texts();
    lemma_run_prefix(st, rest, 21);
    lemma_run_prefix(st, rest, 22);
    lemma_run_prefix(st, rest, 33);
    lemma_run_prefix(st, rest, 36);
    assert(b.subrange(0, 4) =~= seq![0x47u8, 0x4Du8, 0x41u8, 0x44u8]);
    assert(b[4] == 3);
    assert(b[21] == 0);
    assert(spec_cstr(b, 21, at_end) == Ok::<_, Seq<char>>(Some((22int, b.subrange(21, 21)))));
    assert(skip_required(b, 21, at_end) == Ok::<_, Seq<char>>(Some(22int)));
    assert(skip_cstrs(b, 43, 0, at_end) == Ok::<_, Seq<char>>(Some(43int)));
    assert(skip_cstrs(b, 36, 1, at_end) == Ok::<_, Seq<char>>(Some(43int)));
    assert(skip_cstrs(b, 33, 2, at_end) == Ok::<_, Seq<char>>(Some(43int)));
    assert(skip_cstrs(b, 22, 3, at_end) == Ok::<_, Seq<char>>(Some(43int)));
    assert(files.take(0) =~= Seq::<(Seq<char>, Seq<u8>)>::empty());
    assert(file_list(files.take(0)) =~= Seq::<(Seq<char>, u64)>::empty());
    lemma_index_from(files, at_end, 0);
}

} // verus!
