use gmod_manager::gma::{parse_gma_header, safe_entry, test_gma, GmaHeader};

/// A version 3 GMA with the given files, laid out as the game writes one.
fn gma(files: &[(&str, &[u8])]) -> Vec<u8> {
    let mut out = b"GMAD".to_vec();
    out.push(3);
    out.extend_from_slice(&[0; 16]);
    out.push(0);
    for text in ["Test addon", "{}", "Author"] {
        out.extend_from_slice(text.as_bytes());
        out.push(0);
    }
    out.extend_from_slice(&1i32.to_le_bytes());
    for (number, (name, data)) in files.iter().enumerate() {
        out.extend_from_slice(&(number as u32 + 1).to_le_bytes());
        out.extend_from_slice(name.as_bytes());
        out.push(0);
        out.extend_from_slice(&(data.len() as i64).to_le_bytes());
        out.extend_from_slice(&0u32.to_le_bytes());
    }
    out.extend_from_slice(&0u32.to_le_bytes());
    for (_, data) in files {
        out.extend_from_slice(data);
    }
    out.extend_from_slice(&0u32.to_le_bytes());
    out
}

#[test]
fn header_lists_files_and_where_data_starts() {
    let bytes = gma(&[("lua/autorun/a.lua", b"print(1)"), ("materials/x.vtf", b"xyz")]);
    match parse_gma_header(&bytes, true).unwrap() {
        GmaHeader::Done { data_start, entries } => {
            assert_eq!(entries.len(), 2);
            assert_eq!(entries[0].path, "lua/autorun/a.lua");
            assert_eq!(entries[0].size, 8);
            assert_eq!(entries[1].path, "materials/x.vtf");
            assert_eq!(entries[1].size, 3);
            assert!(!entries[1].replaces);
            assert_eq!(&bytes[data_start..data_start + 8], b"print(1)");
        }
        GmaHeader::NeedMore => panic!("whole archive given"),
    }
}

#[test]
fn short_prefixes_ask_for_more() {
    let bytes = gma(&[("lua/a.lua", b"1")]);
    for cut in [0, 3, 10, 30, 60] {
        assert!(matches!(parse_gma_header(&bytes[..cut], false).unwrap(), GmaHeader::NeedMore));
        assert_eq!(parse_gma_header(&bytes[..cut], true).unwrap_err(), "Addon file ended early.");
    }
}

#[test]
fn bad_archives_are_refused() {
    assert_eq!(parse_gma_header(b"PK\x03\x04xxxx", true).unwrap_err(), "Library copy is not a GMA addon.");
    let mut bytes = gma(&[]);
    bytes[4] = 4;
    assert_eq!(parse_gma_header(&bytes, true).unwrap_err(), "Unsupported GMA version 4.");
    let mut bytes = gma(&[("lua/a.lua", b"1")]);
    let size_at = bytes.windows(10).position(|w| w == b"lua/a.lua\0").unwrap() + 10;
    bytes[size_at + 7] = 0x80;
    assert_eq!(parse_gma_header(&bytes, true).unwrap_err(), "Addon index is corrupt.");
    let mut long = b"GMAD\x01".to_vec();
    long.extend_from_slice(&[0; 16]);
    long.extend(std::iter::repeat(b'a').take(70_000));
    assert_eq!(parse_gma_header(&long, false).unwrap_err(), "Addon header is corrupt.");
}

#[test]
fn unsafe_entry_names_are_refused() {
    for name in ["../evil.lua", "lua/../../x.lua", "C:/x.lua", "lua\\x.lua", "/abs.lua", "a//b", "./a", "GMM.JSON", ""] {
        assert_eq!(
            safe_entry(name).unwrap_err(),
            format!("Addon contains an unsafe path: {name}")
        );
    }
    assert_eq!(safe_entry("lua/a.lua").unwrap(), "lua/a.lua");
    assert_eq!(safe_entry("lua/gmm.json").unwrap(), "lua/gmm.json");
    let bytes = gma(&[("lua/a.lua", b"1"), ("../evil.lua", b"2")]);
    assert_eq!(
        parse_gma_header(&bytes, true).unwrap_err(),
        "Addon contains an unsafe path: ../evil.lua"
    );
}

#[test]
fn duplicate_entries_replace_earlier_ones() {
    let bytes = gma(&[("lua/a.lua", b"1"), ("LUA/A.lua", b"2"), ("lua/b.lua", b"3")]);
    match parse_gma_header(&bytes, true).unwrap() {
        GmaHeader::Done { entries, .. } => {
            let flags: Vec<bool> = entries.iter().map(|e| e.replaces).collect();
            assert_eq!(flags, [false, true, false]);
        }
        GmaHeader::NeedMore => panic!(),
    }
}

#[test]
fn archive_built_by_the_library_reads_back() {
    let files = vec![
        ("lua/autorun/a.lua".to_string(), b"x = 1".to_vec()),
        ("materials/b.vtf".to_string(), vec![0u8, 1, 2, 3]),
    ];
    let bytes = test_gma(&files);
    let helper: Vec<(&str, &[u8])> = files.iter().map(|(n, d)| (n.as_str(), d.as_slice())).collect();
    assert_eq!(bytes, gma(&helper));
    match parse_gma_header(&bytes, true).unwrap() {
        GmaHeader::Done { data_start, entries } => {
            assert_eq!(data_start, 47 + (4 + 18 + 8 + 4) + (4 + 16 + 8 + 4) + 4);
            assert_eq!(entries.len(), 2);
            assert_eq!(entries[0].path, "lua/autorun/a.lua");
            assert_eq!(entries[0].size, 5);
            assert_eq!(entries[1].path, "materials/b.vtf");
            assert_eq!(entries[1].size, 4);
            assert_eq!(&bytes[data_start..data_start + 5], b"x = 1");
        }
        GmaHeader::NeedMore => panic!("whole archive given"),
    }
    match parse_gma_header(&test_gma(&Vec::new()), true).unwrap() {
        GmaHeader::Done { data_start, entries } => {
            assert_eq!(data_start, 51);
            assert!(entries.is_empty());
        }
        GmaHeader::NeedMore => panic!("whole archive given"),
    }
}
