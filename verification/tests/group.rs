use dloc::error::Error;
use dloc::serialize::group::{group_assemble, group_split, DecimaGroup, GroupPiece};

fn piece(path: &str, lines: &[&str], tag: u32) -> GroupPiece<u32> {
    GroupPiece {
        path: path.to_string(),
        lines: lines.iter().map(|l| l.as_bytes().to_vec()).collect(),
        inner_info: tag,
    }
}

#[test]
fn assemble_concatenates_and_records_ranges() {
    let (lines, info) = group_assemble(vec![
        piece("a.core", &["one", "two"], 1),
        piece("b.core", &[], 2),
        piece("c.core", &["three"], 3),
    ]);
    let texts: Vec<&[u8]> = lines.iter().map(|l| l.as_slice()).collect();
    assert_eq!(texts, vec![b"one".as_slice(), b"two", b"three"]);
    assert_eq!(info.len(), 3);
    assert_eq!((info[0].start, info[0].end, info[0].inner_info), (0, 2, 1));
    assert_eq!((info[1].start, info[1].end, info[1].inner_info), (2, 2, 2));
    assert_eq!((info[2].start, info[2].end, info[2].inner_info), (2, 3, 3));
    assert_eq!(info[2].path, "c.core");
}

#[test]
fn split_skips_missing_paths() {
    // an envelope entry whose file is gone is silently skipped, the
    // others still import
    let (lines, info) = group_assemble(vec![
        piece("a.core", &["one"], 10),
        piece("gone.core", &["two"], 20),
        piece("c.core", &["three"], 30),
    ]);
    let files = vec!["a.core".to_string(), "c.core".to_string()];
    let work = group_split(info, lines.len(), lines.len(), &files).unwrap();
    assert_eq!(work.len(), 2);
    assert_eq!(work[0].path, "a.core");
    assert_eq!((work[0].start, work[0].end, work[0].inner_info), (0, 1, 10));
    assert_eq!(work[1].path, "c.core");
    assert_eq!((work[1].start, work[1].end, work[1].inner_info), (2, 3, 30));
}

#[test]
fn split_checks_count_and_ranges() {
    let (lines, info) = group_assemble(vec![piece("a.core", &["one"], 1)]);
    let files = vec!["a.core".to_string()];
    assert!(matches!(
        group_split(info, lines.len(), lines.len() + 1, &files),
        Err(Error::LineCountDoesntMatch { expected: 1, got: 2 }),
    ));

    let (lines, mut info) = group_assemble(vec![piece("a.core", &["one"], 1)]);
    info[0].end = 5;
    assert!(matches!(
        group_split(info, lines.len(), lines.len(), &files),
        Err(Error::InvalidRange { max: 1 }),
    ));
}

#[test]
fn group_needs_at_least_one_file() {
    assert!(matches!(
        DecimaGroup::new("root".to_string(), Vec::new()),
        Err(Error::NoFileFound("core")),
    ));
    let g = DecimaGroup::new("root".to_string(), vec!["a.core".to_string()]).unwrap();
    assert_eq!(g.files.len(), 1);
}
