use kvs::recovery::{select_segments, SegmentFile};

fn named(name: &str, modified: u128) -> SegmentFile {
    SegmentFile { name: name.to_owned(), modified, contents: Vec::new() }
}

#[test]
fn only_files_named_like_segments_are_selected() {
    let files = vec![
        named("engine", 1),
        named("3.log", 2),
        named("notes.log", 3),
        named("10.log", 4),
        named("3.log", 5),
        named("010.log", 6),
        named("0.log", 7),
    ];
    let selected = select_segments(&files);
    let found: Vec<(u64, u128, usize)> =
        selected.iter().map(|candidate| (candidate.id, candidate.modified, candidate.position)).collect();
    assert_eq!(found, vec![(3, 2, 1), (10, 4, 3), (0, 7, 6)]);
}

#[test]
fn no_files_no_segments() {
    assert!(select_segments(&Vec::new()).is_empty());
}
