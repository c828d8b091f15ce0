use arbuild::builder::{ArArchiveBuilder, BuildError, NotFound, SkipNone, SkipSet};
use arbuild::reader::parse_archive;
use arbuild::writer::{write_archive, NewArchiveMember};
use arbuild::ArchiveKind;

fn member(name: &str, data: &[u8]) -> NewArchiveMember {
    NewArchiveMember {
        member_name: name.as_bytes().to_vec(),
        buf: data.to_vec(),
        symbols: Vec::new(),
        mtime: 0,
        uid: 0,
        gid: 0,
        perms: 0o644,
    }
}

fn archive_with(names: &[(&str, &[u8])]) -> Vec<u8> {
    let members: Vec<NewArchiveMember> = names.iter().map(|(n, d)| member(n, d)).collect();
    write_archive(&members, ArchiveKind::Gnu, false).unwrap()
}

fn names_of(b: &ArArchiveBuilder) -> Vec<String> {
    b.src_files()
        .into_iter()
        .map(|n| String::from_utf8(n).unwrap())
        .collect()
}

#[test]
fn seed_from_archive_lists_members_in_order() {
    let data = archive_with(&[("a.o", b"AA"), ("b.o", b"BB"), ("meta.bin", b"MM")]);
    let b = ArArchiveBuilder::new(ArchiveKind::Gnu, Some(&data)).unwrap();
    assert_eq!(names_of(&b), vec!["a.o", "b.o", "meta.bin"]);
}

#[test]
fn remove_drops_only_the_named_entry() {
    let data = archive_with(&[("a.o", b"AA"), ("b.o", b"BB"), ("meta.bin", b"MM")]);
    let mut b = ArArchiveBuilder::new(ArchiveKind::Gnu, Some(&data)).unwrap();
    b.remove_file(&b"b.o".to_vec()).unwrap();
    let names = names_of(&b);
    assert_eq!(names, vec!["a.o", "meta.bin"]);
    assert!(!names.contains(&"b.o".to_string()));
}

#[test]
fn remove_of_absent_name_fails_and_mutates_nothing() {
    let data = archive_with(&[("a.o", b"AA")]);
    let mut b = ArArchiveBuilder::new(ArchiveKind::Gnu, Some(&data)).unwrap();
    let before = names_of(&b);
    assert_eq!(b.remove_file(&b"missing.o".to_vec()), Err(NotFound));
    assert_eq!(names_of(&b), before);
}

#[test]
fn add_file_appends_base_name_last() {
    let data = archive_with(&[("a.o", b"AA")]);
    let mut b = ArArchiveBuilder::new(ArchiveKind::Gnu, Some(&data)).unwrap();
    b.add_file(&b"build/out/c.o".to_vec());
    let names = names_of(&b);
    assert_eq!(names.last().unwrap(), "c.o");
    assert_eq!(names, vec!["a.o", "c.o"]);
}

// Scenario: seed from ["a.o", "b.o", "meta.bin"], remove "b.o", add "c.o",
// finalize. The output member order is exactly ["a.o", "meta.bin", "c.o"]:
// nothing is implicitly reordered, so a caller needing "meta.bin" last must
// remove and re-add it.
#[test]
fn no_implicit_reordering_on_finalize() {
    let data = archive_with(&[("a.o", b"AA"), ("b.o", b"BB"), ("meta.bin", b"MM")]);
    let mut b = ArArchiveBuilder::new(ArchiveKind::Gnu, Some(&data)).unwrap();
    b.remove_file(&b"b.o".to_vec()).unwrap();
    b.add_file(&b"obj/c.o".to_vec());
    let sources = vec![data];
    let path_data = vec![b"CC".to_vec()];
    let symbols = vec![Vec::new(), Vec::new(), Vec::new()];
    let out = b.build(&sources, &path_data, &symbols, true).unwrap();
    let members = parse_archive(&out).unwrap();
    let got: Vec<(String, Vec<u8>)> = members
        .iter()
        .map(|m| {
            (
                String::from_utf8(m.name.clone()).unwrap(),
                out[m.start..m.end].to_vec(),
            )
        })
        .collect();
    assert_eq!(
        got,
        vec![
            ("a.o".to_string(), b"AA".to_vec()),
            ("meta.bin".to_string(), b"MM".to_vec()),
            ("c.o".to_string(), b"CC".to_vec()),
        ]
    );
}

// Scenario: merging ["x1.o", "x2.o"] into an empty builder with a predicate
// that rejects "x2.o" yields exactly ["x1.o"].
#[test]
fn merge_with_skip_keeps_exactly_the_unskipped() {
    let x = archive_with(&[("x1.o", b"11"), ("x2.o", b"22")]);
    let mut b = ArArchiveBuilder::new(ArchiveKind::Gnu, None).unwrap();
    let skip = SkipSet { names: vec![b"x2.o".to_vec()] };
    b.add_archive(&x, &skip).unwrap();
    assert_eq!(names_of(&b), vec!["x1.o"]);
    let sources = vec![x];
    let out = b.build(&sources, &Vec::new(), &vec![Vec::new()], true).unwrap();
    let members = parse_archive(&out).unwrap();
    assert_eq!(members.len(), 1);
    assert_eq!(members[0].name, b"x1.o".to_vec());
    assert_eq!(&out[members[0].start..members[0].end], b"11");
}

#[test]
fn merge_preserves_source_order_after_existing_entries() {
    let first = archive_with(&[("a.o", b"AA")]);
    let second = archive_with(&[("m1.o", b"M1"), ("m2.o", b"M2")]);
    let mut b = ArArchiveBuilder::new(ArchiveKind::Gnu, Some(&first)).unwrap();
    b.add_archive(&second, &SkipNone).unwrap();
    assert_eq!(names_of(&b), vec!["a.o", "m1.o", "m2.o"]);
}

// Scenario: a source byte range whose end exceeds the source's actual length
// fails, and never silently truncates or pads. Here the source archive shrank
// between parse time and finalize time.
#[test]
fn finalize_with_range_past_source_end_fails() {
    let data = archive_with(&[("a.o", b"AAAAAAAA")]);
    let b = ArArchiveBuilder::new(ArchiveKind::Gnu, Some(&data)).unwrap();
    let mut truncated = data.clone();
    truncated.truncate(data.len() - 4);
    let r = b.resolve(&vec![truncated], &Vec::new());
    assert_eq!(r.unwrap_err(), BuildError::BadRange);
}

#[test]
fn finalize_without_the_source_archive_fails() {
    let data = archive_with(&[("a.o", b"AA")]);
    let b = ArArchiveBuilder::new(ArchiveKind::Gnu, Some(&data)).unwrap();
    let r = b.resolve(&Vec::new(), &Vec::new());
    assert_eq!(r.unwrap_err(), BuildError::MissingSource);
}

#[test]
fn finalize_without_file_content_fails() {
    let mut b = ArArchiveBuilder::new(ArchiveKind::Gnu, None).unwrap();
    b.add_file(&b"c.o".to_vec());
    let r = b.resolve(&Vec::new(), &Vec::new());
    assert_eq!(r.unwrap_err(), BuildError::MissingInput);
}

#[test]
fn resolve_yields_names_with_contents() {
    let data = archive_with(&[("a.o", b"AA"), ("b.o", b"BBB")]);
    let mut b = ArArchiveBuilder::new(ArchiveKind::Gnu, Some(&data)).unwrap();
    b.add_file(&b"dir/c.o".to_vec());
    let rs = b.resolve(&vec![data], &vec![b"CC".to_vec()]).unwrap();
    let got: Vec<(String, Vec<u8>)> = rs
        .into_iter()
        .map(|m| (String::from_utf8(m.name).unwrap(), m.data))
        .collect();
    assert_eq!(
        got,
        vec![
            ("a.o".to_string(), b"AA".to_vec()),
            ("b.o".to_string(), b"BBB".to_vec()),
            ("c.o".to_string(), b"CC".to_vec()),
        ]
    );
}
