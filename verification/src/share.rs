//! Shared presets: the ZIP a preset is exported as, and the preset JSON read back from an
//! imported file, which is either such a ZIP or the bare JSON.

use std::io::{Cursor, Read, Write};
use vstd::prelude::*;
use vstd::string::StringSliceAdditionalSpecFns;

verus! {

/// The largest preset JSON the manager writes into, or reads from, a shared file.
pub const MAX_PRESET_JSON_BYTES: usize = 16777216;

/// The name of the member that holds the preset.
pub const PRESET_MEMBER: &'static str = "preset.json";

/// The name of the member that tells a person what the archive is.
pub const README_MEMBER: &'static str = "README.txt";

pub const README_TEXT: &'static str = "GMod Manager preset\r\n\r\nOpen GMod Manager and click Import in the sidebar, then pick this ZIP. It holds the whole preset (Workshop IDs, links, binds, settings, and config contents) but not the mods themselves. Press Play with Steam online and GMod downloads them.\r\n";

pub const TOO_LARGE_TO_SHARE: &'static str = "Preset is too large to share (16 MB limit).";

pub const JSON_TOO_LARGE: &'static str = "Preset JSON is too large (16 MB limit).";

pub const MEMBER_TOO_LARGE: &'static str = "Preset JSON inside ZIP is too large (16 MB limit).";

pub const MEMBER_MISSING: &'static str = "ZIP is missing preset.json.";

/// What reading one member of a ZIP archive gives: `Err` with the text of the archive error
/// when the bytes are no archive the reader accepts; `Ok(None)` when it has no member of that
/// name; otherwise the member's declared uncompressed size, and either the text of the read
/// error or at most `cap` bytes of its content.
pub uninterp spec fn zip_member(archive: Seq<u8>, name: Seq<char>, cap: nat) -> Result<
    Option<(u64, Result<Seq<u8>, Seq<char>>)>,
    Seq<char>,
>;

/// A member read back whole: its length as the declared size, and its bytes.
pub open spec fn member_holding(b: Seq<u8>) -> Result<
    Option<(u64, Result<Seq<u8>, Seq<char>>)>,
    Seq<char>,
> {
    Ok(Some((b.len() as u64, Ok(b))))
}

/// A member as read, in the shape of `zip_member`.
pub open spec fn member_view(r: Result<Option<(u64, Result<Vec<u8>, String>)>, String>) -> Result<
    Option<(u64, Result<Seq<u8>, Seq<char>>)>,
    Seq<char>,
> {
    match r {
        Err(e) => Err(e@),
        Ok(None) => Ok(None),
        Ok(Some((size, Err(e)))) => Ok(Some((size, Err(e@)))),
        Ok(Some((size, Ok(b)))) => Ok(Some((size, Ok(b@)))),
    }
}

pub open spec fn bytes_result(r: Result<Vec<u8>, String>) -> Result<Seq<u8>, Seq<char>> {
    match r {
        Ok(b) => Ok(b@),
        Err(e) => Err(e@),
    }
}

/// A member name that the writer stores and the reader finds again as it is: letters, digits,
/// `.`, `_` and `-`, at least one of them.
pub open spec fn plain_member_name(name: Seq<char>) -> bool {
    name.len() > 0 && forall|i: int|
        0 <= i < name.len() ==> {
            let c = #[trigger] name[i];
            ('a' <= c <= 'z') || ('A' <= c <= 'Z') || ('0' <= c <= '9') || c == '.' || c == '_'
                || c == '-'
        }
}

/// The four bytes a ZIP file starts with, the signature of its first local file header.
pub open spec fn zip_magic(bytes: Seq<u8>) -> bool {
    bytes.len() >= 4 && bytes[0] == 0x50u8 && bytes[1] == 0x4bu8 && bytes[2] == 0x03u8 && bytes[3]
        == 0x04u8
}

/// `zip::ZipArchive::new` over the bytes, then `by_name`, `size` and a read of at most `cap`
/// bytes with `Read::take` and `read_to_end`. The result is named by `zip_member`; every error of
/// `by_name` counts as a missing member.
#[verifier::external_body]
fn read_zip_member(archive: &[u8], name: &str, cap: u64) -> (r: Result<
    Option<(u64, Result<Vec<u8>, String>)>,
    String,
>)
    ensures
        member_view(r) == zip_member(archive@, name@, cap as nat),
{
    let mut zip = match zip::ZipArchive::new(Cursor::new(archive)) {
        Ok(z) => z,
        Err(e) => return Err(e.to_string()),
    };
    let entry = match zip.by_name(name) { Ok(entry) => entry, Err(_) => return Ok(None) };
    let size = entry.size();
    let mut bytes = Vec::new();
    let read = entry.take(cap).read_to_end(&mut bytes);
    match read {
        Ok(_) => Ok(Some((size, Ok(bytes)))),
        Err(e) => Ok(Some((size, Err(e.to_string())))),
    }
}

/// A new archive from `zip::ZipWriter` over an in-memory cursor, holding two members stored
/// without compression, in this order; an error of the writer comes back as its text. What the
/// contract claims of it: with distinct plain names and members that together stay under 2 GiB
/// it succeeds (the writer fails only on a duplicate name, a member past the 4 GiB limit of an
/// archive without ZIP64, or an error of the inner writer, which an in-memory cursor never gives;
/// with the crate's `time` feature off the entries' date is fixed); an archive it returns starts
/// with the local file header signature; and reading either member back with a cap no smaller
/// than its length gives its length as the declared size and its bytes as they were written.
#[verifier::external_body]
fn zip_stored(first_name: &str, first: &[u8], second_name: &str, second: &[u8]) -> (r: Result<
    Vec<u8>,
    String,
>)
    requires
        plain_member_name(first_name@),
        plain_member_name(second_name@),
        first_name@ != second_name@,
    ensures
        first@.len() + second@.len() < 0x8000_0000 ==> r is Ok,
        r matches Ok(a) ==> zip_magic(a@),
        r matches Ok(a) ==> forall|cap: nat|
            cap >= first@.len() ==> #[trigger] zip_member(a@, first_name@, cap) == member_holding(first@),
        r matches Ok(a) ==> forall|cap: nat|
            cap >= second@.len() ==> #[trigger] zip_member(a@, second_name@, cap) == member_holding(second@),
{
    let mut w = zip::ZipWriter::new(Cursor::new(Vec::new()));
    let options = zip::write::SimpleFileOptions::default().compression_method(zip::CompressionMethod::Stored);
    if let Err(e) = w.start_file(first_name, options) { return Err(e.to_string()); }
    if let Err(e) = w.write_all(first) { return Err(e.to_string()); }
    if let Err(e) = w.start_file(second_name, options) { return Err(e.to_string()); }
    if let Err(e) = w.write_all(second) { return Err(e.to_string()); }
    match w.finish() {
        Ok(c) => Ok(c.into_inner()),
        Err(e) => Err(e.to_string()),
    }
}

/// The preset JSON a shared file gives once its `preset.json` member was read.
pub open spec fn spec_preset_from_member(
    m: Result<Option<(u64, Result<Seq<u8>, Seq<char>>)>, Seq<char>>,
) -> Result<Seq<u8>, Seq<char>> {
    match m {
        Err(e) => Err(e),
        Ok(None) => Err(MEMBER_MISSING@),
        Ok(Some((size, read))) => if size > MAX_PRESET_JSON_BYTES {
            Err(MEMBER_TOO_LARGE@)
        } else {
            match read {
                Err(e) => Err(e),
                Ok(b) => if b.len() > MAX_PRESET_JSON_BYTES {
                    Err(MEMBER_TOO_LARGE@)
                } else {
                    Ok(b)
                },
            }
        },
    }
}

/// The preset JSON of a shared file's bytes: a ZIP gives its `preset.json` member, read with a
/// cap one past the limit; anything else is the JSON itself.
pub open spec fn spec_preset_json(bytes: Seq<u8>) -> Result<Seq<u8>, Seq<char>> {
    if zip_magic(bytes) {
        spec_preset_from_member(zip_member(bytes, PRESET_MEMBER@, MAX_PRESET_JSON_BYTES as nat + 1))
    } else if bytes.len() > MAX_PRESET_JSON_BYTES {
        Err(JSON_TOO_LARGE@)
    } else {
        Ok(bytes)
    }
}

/// Decides on a `preset.json` member as read from a ZIP: the archive's or the read's error is
/// passed on, a missing member and one over the limit by its declared size or by what was read
/// are refused, and otherwise its bytes are the preset JSON.
pub fn preset_from_member(found: Result<Option<(u64, Result<Vec<u8>, String>)>, String>) -> (r:
    Result<Vec<u8>, String>)
    ensures
        bytes_result(r) == spec_preset_from_member(member_view(found)),
{
    match found {
        Err(e) => Err(e),
        Ok(None) => Err(MEMBER_MISSING.to_string()),
        Ok(Some((size, read))) => {
            if size > MAX_PRESET_JSON_BYTES as u64 {
                return Err(MEMBER_TOO_LARGE.to_string());
            }
            match read {
                Err(e) => Err(e),
                Ok(b) => {
                    if b.len() > MAX_PRESET_JSON_BYTES {
                        Err(MEMBER_TOO_LARGE.to_string())
                    } else {
                        Ok(b)
                    }
                },
            }
        },
    }
}

/// The preset JSON held by the bytes of an imported file.
pub fn preset_json(bytes: &[u8]) -> (r: Result<Vec<u8>, String>)
    ensures
        bytes_result(r) == spec_preset_json(bytes@),
        !zip_magic(bytes@) && bytes@.len() <= MAX_PRESET_JSON_BYTES ==> (r matches Ok(b) && b@
            == bytes@),
{
    if bytes.len() >= 4 && bytes[0] == 0x50u8 && bytes[1] == 0x4bu8 && bytes[2] == 0x03u8
        && bytes[3] == 0x04u8 {
        let found = read_zip_member(bytes, PRESET_MEMBER, MAX_PRESET_JSON_BYTES as u64 + 1);
        preset_from_member(found)
    } else if bytes.len() > MAX_PRESET_JSON_BYTES {
        Err(JSON_TOO_LARGE.to_string())
    } else {
        Ok(vstd::slice::slice_to_vec(bytes))
    }
}

proof fn lemma_member_names()
    ensures
        plain_member_name(PRESET_MEMBER@),
        plain_member_name(README_MEMBER@),
        PRESET_MEMBER@ != README_MEMBER@,
{
    reveal_strlit("preset.json");
    reveal_strlit("README.txt");
    assert(PRESET_MEMBER@[0] != README_MEMBER@[0]);
}

/// The note's text is ASCII, so its bytes are its characters, and it is short.
proof fn lemma_readme_bytes()
    ensures
        README_TEXT.spec_bytes().len() < 1024,
{
    reveal_strlit("GMod Manager preset\r\n\r\nOpen GMod Manager and click Import in the sidebar, then pick this ZIP. It holds the whole preset (Workshop IDs, links, binds, settings, and config contents) but not the mods themselves. Press Play with Steam online and GMod downloads them.\r\n");
    let t = README_TEXT@;
    assert(t.len() < 1024);
    assert(vstd::string::is_ascii(README_TEXT)) by {
        assert(forall|i: int| 0 <= i < t.len() ==> '\0' <= #[trigger] t[i] <= '\u{7f}');
    }
    vstd::string::is_ascii_spec_bytes(README_TEXT);
}

/// The archive a preset is shared as: its JSON as `preset.json` and a short note as
/// `README.txt`, both stored. JSON over the limit is refused; any other is shared.
pub fn preset_archive(json: &[u8]) -> (r: Result<Vec<u8>, String>)
    ensures
        json@.len() > MAX_PRESET_JSON_BYTES ==> (r matches Err(e) && e@ == TOO_LARGE_TO_SHARE@),
        json@.len() <= MAX_PRESET_JSON_BYTES ==> r is Ok,
        r matches Ok(a) ==> zip_magic(a@) && zip_member(a@, PRESET_MEMBER@, MAX_PRESET_JSON_BYTES
            as nat + 1) == member_holding(json@),
        r matches Ok(a) ==> zip_member(a@, README_MEMBER@, README_TEXT.spec_bytes().len())
            == member_holding(README_TEXT.spec_bytes()),
        r matches Ok(a) ==> spec_preset_json(a@) == Ok::<Seq<u8>, Seq<char>>(json@),
{
    if json.len() > MAX_PRESET_JSON_BYTES {
        return Err(TOO_LARGE_TO_SHARE.to_string());
    }
    proof {
        lemma_member_names();
        lemma_readme_bytes();
    }
    let r = zip_stored(PRESET_MEMBER, json, README_MEMBER, README_TEXT.as_bytes());
    proof {
        if r is Ok {
            let a = r->Ok_0;
            assert(zip_member(a@, PRESET_MEMBER@, MAX_PRESET_JSON_BYTES as nat + 1) == member_holding(json@));
            assert(zip_member(a@, README_MEMBER@, README_TEXT.spec_bytes().len()) == member_holding(
                README_TEXT.spec_bytes(),
            ));
            lemma_share_round_trip(json@, a@);
        }
    }
    r
}

/// Importing what was exported gives back the JSON that was shared.
pub proof fn lemma_share_round_trip(json: Seq<u8>, archive: Seq<u8>)
    requires
        json.len() <= MAX_PRESET_JSON_BYTES,
        zip_magic(archive),
        zip_member(archive, PRESET_MEMBER@, MAX_PRESET_JSON_BYTES as nat + 1) == member_holding(json),
    ensures
        spec_preset_json(archive) == Ok::<Seq<u8>, Seq<char>>(json),
{
}

} // verus!
