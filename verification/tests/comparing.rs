use rsdupes::comparator::{BytewiseFileComparator, DuplicateMessage, Step};
use rsdupes::digest::Digest;
use rsdupes::full_hash::FullHashMessage;
use rsdupes::path::FilePath;
use rsdupes::status::StatusUpdate;

fn path(text: &str) -> FilePath {
    FilePath { bytes: text.as_bytes().to_vec() }
}

const HASH: Digest = Digest { first: 5, second: 6 };

fn message(text: &str) -> FullHashMessage {
    FullHashMessage { file_size: 3, hash: HASH, path: path(text) }
}

fn duplicate(original: &str, duplicate: &str) -> Step {
    Step::Duplicate(DuplicateMessage {
        file_size: 3,
        hash: HASH,
        original: path(original),
        duplicate: path(duplicate),
    })
}

/// Compares a file with those before it, to the end.
fn compare(
    comparator: &mut BytewiseFileComparator,
    name: &str,
    files: &[(&str, u32, &[u8])],
) -> Step {
    let of = |p: &FilePath| *files.iter().find(|f| path(f.0) == *p).unwrap();
    let own = of(&path(name));
    let mut step = comparator.begin(message(name), own.1, true);
    loop {
        step = match step {
            Step::Permissions { comparison, candidate } => {
                let mode = of(&candidate).1;
                comparator.permissions(comparison, mode)
            }
            Step::Contents { comparison, candidate } => {
                comparator.contents(comparison, of(&candidate).2, own.2)
            }
            end => return end,
        }
    }
}

#[test]
fn the_first_equal_file_is_the_original() {
    let files: [(&str, u32, &[u8]); 6] = [
        ("c", 0o644, b"one"),
        ("b", 0o644, b"two"),
        ("a", 0o600, b"one"),
        ("d", 0o644, b"one"),
        ("e", 0o600, b"one"),
        ("f", 0o644, b"two"),
    ];
    let mut comparator = BytewiseFileComparator::new();
    assert_eq!(compare(&mut comparator, "c", &files), Step::Kept);
    assert_eq!(compare(&mut comparator, "b", &files), Step::Kept);
    assert_eq!(compare(&mut comparator, "a", &files), Step::Kept);
    assert_eq!(compare(&mut comparator, "d", &files), duplicate("c", "d"));
    assert_eq!(compare(&mut comparator, "e", &files), duplicate("a", "e"));
    assert_eq!(compare(&mut comparator, "f", &files), duplicate("b", "f"));
}

#[test]
fn files_are_compared_in_the_order_of_their_paths() {
    let mut comparator = BytewiseFileComparator::new();
    let files: [(&str, u32, &[u8]); 3] = [("z", 1, b"1"), ("m", 2, b"1"), ("q", 3, b"1")];
    assert_eq!(compare(&mut comparator, "z", &files), Step::Kept);
    assert_eq!(compare(&mut comparator, "m", &files), Step::Kept);
    match comparator.begin(message("q"), 3, true) {
        Step::Permissions { comparison, candidate } => {
            assert_eq!(candidate, path("m"));
            match comparator.permissions(comparison, 3) {
                Step::Contents { comparison, candidate } => {
                    assert_eq!(candidate, path("m"));
                    match comparator.contents(comparison, b"1", b"2") {
                        Step::Permissions { comparison, candidate } => {
                            assert_eq!(candidate, path("z"));
                            assert_eq!(comparator.permissions(comparison, 4), Step::Kept);
                        }
                        other => panic!("{:?}", other),
                    }
                }
                other => panic!("{:?}", other),
            }
        }
        other => panic!("{:?}", other),
    }
}

#[test]
fn every_duplicate_is_counted_once() {
    let mut comparator = BytewiseFileComparator::new();
    let files: [(&str, u32, &[u8]); 2] = [("a", 1, b"1"), ("b", 1, b"1")];
    let first = compare(&mut comparator, "a", &files);
    assert_eq!(first.sends(false), (None, None));
    let found = match duplicate("a", "b") {
        Step::Duplicate(found) => found,
        other => panic!("{:?}", other),
    };
    assert_eq!(
        duplicate("a", "b").sends(false),
        (Some(found), Some(StatusUpdate::Duplicates(1)))
    );
    let second = compare(&mut comparator, "b", &files);
    assert_eq!(second.sends(true), (None, Some(StatusUpdate::Duplicates(1))));
    assert_eq!(Step::Skipped.sends(false), (None, None));
}

#[test]
fn an_unreadable_file_is_skipped() {
    let mut comparator = BytewiseFileComparator::new();
    assert_eq!(comparator.begin(message("a"), 1, false), Step::Skipped);
    assert_eq!(comparator.begin(message("b"), 1, true), Step::Kept);
}

#[test]
fn files_of_another_size_or_digest_are_not_compared() {
    let mut comparator = BytewiseFileComparator::new();
    assert_eq!(comparator.begin(message("a"), 1, true), Step::Kept);
    let larger = FullHashMessage { file_size: 4, hash: HASH, path: path("b") };
    assert_eq!(comparator.begin(larger, 1, true), Step::Kept);
    let other = Digest { first: 6, second: 5 };
    let different = FullHashMessage { file_size: 3, hash: other, path: path("c") };
    assert_eq!(comparator.begin(different, 1, true), Step::Kept);
}
