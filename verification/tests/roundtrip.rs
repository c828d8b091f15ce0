use arbuild::reader::{parse_archive, ParseError};
use arbuild::writer::{write_archive, NewArchiveMember, WriteError};
use arbuild::ArchiveKind;

fn member(name: &str, data: &[u8], symbols: &[&str]) -> NewArchiveMember {
    NewArchiveMember {
        member_name: name.as_bytes().to_vec(),
        buf: data.to_vec(),
        symbols: symbols.iter().map(|s| s.as_bytes().to_vec()).collect(),
        mtime: 0,
        uid: 0,
        gid: 0,
        perms: 0o644,
    }
}

fn pairs_of(archive: &[u8]) -> Vec<(String, Vec<u8>)> {
    let data = archive.to_vec();
    parse_archive(&data)
        .unwrap()
        .into_iter()
        .map(|m| {
            (
                String::from_utf8(m.name).unwrap(),
                archive[m.start..m.end].to_vec(),
            )
        })
        .collect()
}

#[test]
fn gnu_single_member_exact_bytes() {
    let out = write_archive(&vec![member("a.o", b"XY", &[])], ArchiveKind::Gnu, false).unwrap();
    let mut expected = Vec::new();
    expected.extend_from_slice(b"!<arch>\n");
    expected.extend_from_slice(b"a.o/            ");
    expected.extend_from_slice(b"0           "); // mtime, 12 columns
    expected.extend_from_slice(b"0     "); // uid, 6 columns
    expected.extend_from_slice(b"0     "); // gid, 6 columns
    expected.extend_from_slice(b"644     "); // permissions, octal, 8 columns
    expected.extend_from_slice(b"2         "); // size, 10 columns
    expected.extend_from_slice(b"`\n");
    expected.extend_from_slice(b"XY");
    assert_eq!(out, expected);
}

#[test]
fn gnu_odd_size_is_padded_with_newline() {
    let out = write_archive(&vec![member("a.o", b"XYZ", &[])], ArchiveKind::Gnu, false).unwrap();
    assert_eq!(out.len() % 2, 0);
    assert_eq!(*out.last().unwrap(), b'\n');
    assert_eq!(pairs_of(&out), vec![("a.o".to_string(), b"XYZ".to_vec())]);
}

#[test]
fn gnu_round_trip_short_and_long_names() {
    let members = vec![
        member("a.o", b"AA", &[]),
        member("a-very-long-member-name.o", b"LONG", &[]),
        member("b.o", b"B", &[]),
        member("another-quite-long-name.o", b"L2", &[]),
    ];
    let out = write_archive(&members, ArchiveKind::Gnu, false).unwrap();
    assert_eq!(
        pairs_of(&out),
        vec![
            ("a.o".to_string(), b"AA".to_vec()),
            ("a-very-long-member-name.o".to_string(), b"LONG".to_vec()),
            ("b.o".to_string(), b"B".to_vec()),
            ("another-quite-long-name.o".to_string(), b"L2".to_vec()),
        ]
    );
}

#[test]
fn gnu_round_trip_with_symbol_table() {
    let members = vec![
        member("a.o", b"AA", &["foo", "bar"]),
        member("b.o", b"BB", &["baz"]),
    ];
    let out = write_archive(&members, ArchiveKind::Gnu, true).unwrap();
    // the symbol table member "/" is consumed by the reader, not reported
    assert_eq!(
        pairs_of(&out),
        vec![
            ("a.o".to_string(), b"AA".to_vec()),
            ("b.o".to_string(), b"BB".to_vec()),
        ]
    );
    // symbol count is big-endian right after the symbol table header
    assert_eq!(&out[68..72], &[0, 0, 0, 3]);
    // the pool carries the NUL-terminated names
    let pool = b"foo\0bar\0baz\0";
    assert!(out.windows(pool.len()).any(|w| w == pool));
}

#[test]
fn darwin_round_trip_with_symbol_table() {
    let members = vec![
        member("x1.o", b"11", &["alpha"]),
        member("a-very-long-member-name.o", b"2222", &["beta"]),
    ];
    let out = write_archive(&members, ArchiveKind::Darwin, true).unwrap();
    // the __.SYMDEF member is consumed by the reader, not reported
    assert_eq!(
        pairs_of(&out),
        vec![
            ("x1.o".to_string(), b"11".to_vec()),
            ("a-very-long-member-name.o".to_string(), b"2222".to_vec()),
        ]
    );
    let symdef = b"__.SYMDEF";
    assert!(out.windows(symdef.len()).any(|w| w == symdef));
}

// Round trip through writer and reader preserves the (name, content) pairs of
// what was parsed, in order — hence the same multiset.
#[test]
fn parse_write_parse_reproduces_members() {
    let members = vec![
        member("a.o", b"AA", &[]),
        member("meta.bin", b"METADATA!", &[]),
    ];
    for kind in [ArchiveKind::Gnu, ArchiveKind::Darwin] {
        let first = write_archive(&members, kind, true).unwrap();
        let parsed = pairs_of(&first);
        let remembers: Vec<NewArchiveMember> = parsed
            .iter()
            .map(|(n, d)| member(n, d, &[]))
            .collect();
        let second = write_archive(&remembers, kind, true).unwrap();
        assert_eq!(pairs_of(&second), parsed);
    }
}

#[test]
fn empty_member_list_round_trips() {
    for kind in [ArchiveKind::Gnu, ArchiveKind::Darwin] {
        let out = write_archive(&Vec::new(), kind, false).unwrap();
        assert_eq!(out, b"!<arch>\n".to_vec());
        assert_eq!(pairs_of(&out), Vec::new());
    }
}

#[test]
fn metadata_out_of_field_range_is_refused() {
    let mut m = member("a.o", b"AA", &[]);
    m.mtime = 1_000_000_000_000; // thirteen decimal digits do not fit
    assert_eq!(
        write_archive(&vec![m], ArchiveKind::Gnu, false).unwrap_err(),
        WriteError::FieldOverflow
    );
    let mut m2 = member("a.o", b"AA", &[]);
    m2.uid = 1_000_000;
    assert_eq!(
        write_archive(&vec![m2], ArchiveKind::Gnu, false).unwrap_err(),
        WriteError::FieldOverflow
    );
}

#[test]
fn missing_magic_is_refused() {
    assert_eq!(parse_archive(&Vec::new()).unwrap_err(), ParseError::BadMagic);
    assert_eq!(
        parse_archive(&b"!<arch>X".to_vec()).unwrap_err(),
        ParseError::BadMagic
    );
}

#[test]
fn truncated_header_is_refused() {
    let mut data = b"!<arch>\n".to_vec();
    data.extend_from_slice(b"a.o/      "); // header cut short
    assert_eq!(parse_archive(&data).unwrap_err(), ParseError::Truncated);
}

#[test]
fn size_past_end_of_file_is_refused() {
    let good = write_archive(&vec![member("a.o", b"XY", &[])], ArchiveKind::Gnu, false).unwrap();
    let mut data = good.clone();
    data.truncate(good.len() - 1); // payload shorter than the size field says
    assert_eq!(parse_archive(&data).unwrap_err(), ParseError::Truncated);
}

#[test]
fn bad_end_marker_is_refused() {
    let good = write_archive(&vec![member("a.o", b"XY", &[])], ArchiveKind::Gnu, false).unwrap();
    let mut data = good.clone();
    data[8 + 58] = b'?'; // corrupt the header end marker
    assert_eq!(parse_archive(&data).unwrap_err(), ParseError::BadHeader);
}

#[test]
fn bad_size_field_is_refused() {
    let good = write_archive(&vec![member("a.o", b"XY", &[])], ArchiveKind::Gnu, false).unwrap();
    let mut data = good.clone();
    data[8 + 48] = b'x'; // size field is not a number
    assert_eq!(parse_archive(&data).unwrap_err(), ParseError::BadHeader);
}
