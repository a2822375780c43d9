use rsdupes::digest::Digest;
use rsdupes::file_discovery_actors::FileInfo;
use rsdupes::file_selector::{
    hasher_pipeline, hashing_progress_text, tasks_left_text, FilePartialHashSelector,
    FileSizeSelector, FullHashSelector,
};
use rsdupes::path::FilePath;
use std::collections::HashMap;

fn path(text: &str) -> FilePath {
    FilePath { bytes: text.as_bytes().to_vec() }
}

fn file(name: &str, content: &[u8]) -> (FilePath, Vec<u8>) {
    (path(name), content.to_vec())
}

fn key(content: &[u8]) -> (u128, u128) {
    let digest = Digest::of(content);
    (digest.first, digest.second)
}

#[test]
fn files_are_put_into_buckets_by_size() {
    let info = |ino: u64, size: u64| Some(FileInfo { dev: 1, ino, size });
    let mut selector = FileSizeSelector::default();
    let unknown = selector.run_collection(vec![
        (path("a"), info(1, 5)),
        (path("b"), info(2, 6)),
        (path("gone"), None),
        (path("c"), info(3, 5)),
        (path("again"), info(1, 5)),
        (path("empty"), info(4, 0)),
        (path("empty too"), info(5, 0)),
    ]);
    assert_eq!(unknown, vec![path("gone")]);
    assert_eq!(selector.by_sizes.len(), 2);
    assert_eq!(selector.by_sizes[&5], vec![path("a"), path("c")]);
    assert_eq!(selector.by_sizes[&6], vec![path("b")]);
    // What has been met is forgotten between collections, the buckets are not.
    selector.run_collection(vec![(path("a"), info(1, 5))]);
    assert_eq!(selector.by_sizes[&5], vec![path("a"), path("c"), path("a")]);
}

#[test]
fn files_are_grouped_by_their_start() {
    let selector = FilePartialHashSelector::from_path_bucket(
        vec![file("a", b"12x"), file("b", b"12y"), file("c", b"13x"), file("d", b"1")],
        2,
    );
    assert_eq!(selector.by_hash.len(), 1);
    assert_eq!(selector.by_hash[&key(b"12")], vec![path("a"), path("b")]);
    let all = FilePartialHashSelector::from_path_bucket(vec![file("a", b"1"), file("b", b"2")], 0);
    assert_eq!(all.by_hash[&key(b"")], vec![path("a"), path("b")]);
    assert!(FilePartialHashSelector::default().by_hash.is_empty());
}

#[test]
fn files_are_grouped_by_their_content() {
    let selector = FullHashSelector::from_path_bucket(vec![
        file("a", b"one"),
        file("b", b"two"),
        file("c", b"one"),
        file("d", b"three"),
        file("e", b"one"),
    ]);
    assert_eq!(selector.by_hash.len(), 1);
    assert_eq!(selector.by_hash[&key(b"one")], vec![path("a"), path("c"), path("e")]);
    assert!(FullHashSelector::default().by_hash.is_empty());
}

#[test]
fn equal_digests_share_a_group() {
    let digest = Digest { first: 3, second: 4 };
    let other = Digest { first: 4, second: 3 };
    let full = FullHashSelector::from_digests(vec![
        (path("a"), digest),
        (path("b"), other),
        (path("c"), digest),
    ]);
    assert_eq!(full.by_hash.len(), 1);
    assert_eq!(full.by_hash[&(3, 4)], vec![path("a"), path("c")]);
    let partial = FilePartialHashSelector::from_digests(vec![(path("a"), digest)]);
    assert!(partial.by_hash.is_empty());
}

#[test]
fn groups_are_listed_under_their_digests() {
    let selector = FullHashSelector::from_path_bucket(vec![file("a", b"abc"), file("b", b"abc")]);
    assert_eq!(
        selector.entries(),
        vec![(
            "ba7816bf8f01cfea414140de5dae2223b00361a396177a9cb410ff61f20015ad".to_string(),
            vec![path("a"), path("b")]
        )]
    );
}

#[test]
fn equal_files_are_found() {
    let contents: [(&str, &[u8]); 5] = [
        ("a", b"xx1"),
        ("b", b"xx1"),
        ("c", b"xx2"),
        ("d", b"yy1"),
        ("e", b"xx"),
    ];
    let of = |p: &FilePath| contents.iter().find(|c| path(c.0) == *p).unwrap().1.to_vec();
    let mut buckets: HashMap<u64, Vec<FilePath>> = HashMap::new();
    for (name, content) in contents {
        buckets.entry(content.len() as u64).or_default().push(path(name));
    }
    let (mut pipeline, tasks) = hasher_pipeline(&buckets);
    assert!(pipeline.results.is_empty());
    assert_eq!(tasks.len(), 2);
    for (size, paths) in tasks {
        let files = paths.into_iter().map(|p| { let c = of(&p); (p, c) }).collect();
        let starts = FilePartialHashSelector::from_path_bucket(files, 2);
        for (size, group) in pipeline.partial_done(size, &starts) {
            let files = group.into_iter().map(|p| { let c = of(&p); (p, c) }).collect();
            pipeline.full_done(size, FullHashSelector::from_path_bucket(files));
        }
    }
    assert_eq!(pipeline.results.len(), 1);
    assert_eq!(pipeline.results[0].0, 3);
    assert_eq!(pipeline.results[0].1.by_hash[&key(b"xx1")], vec![path("a"), path("b")]);
}

#[test]
fn every_group_is_given_once() {
    let contents: [(&str, &[u8]); 9] = [
        ("a", b"xx1"),
        ("b", b"xx2"),
        ("c", b"xx1"),
        ("d", b"yy1"),
        ("e", b"xx2"),
        ("f", b"yy1"),
        ("g", b"xx"),
        ("h", b"xx"),
        ("i", b"zz1"),
    ];
    let of = |p: &FilePath| contents.iter().find(|c| path(c.0) == *p).unwrap().1.to_vec();
    let mut buckets: HashMap<u64, Vec<FilePath>> = HashMap::new();
    for (name, content) in contents {
        buckets.entry(content.len() as u64).or_default().push(path(name));
    }
    let (mut pipeline, tasks) = hasher_pipeline(&buckets);
    for (size, paths) in tasks {
        // Files are hashed in another order than they stand in.
        let files = paths.into_iter().rev().map(|p| { let c = of(&p); (p, c) }).collect();
        let starts = FilePartialHashSelector::from_path_bucket(files, 2);
        for (size, group) in pipeline.partial_done(size, &starts).into_iter().rev() {
            let files = group.into_iter().map(|p| { let c = of(&p); (p, c) }).collect();
            pipeline.full_done(size, FullHashSelector::from_path_bucket(files));
        }
    }
    for (content, names) in [
        (&b"xx1"[..], &["a", "c"][..]),
        (b"xx2", &["b", "e"]),
        (b"yy1", &["d", "f"]),
        (b"xx", &["g", "h"]),
        (b"zz1", &[]),
    ] {
        let size = content.len() as u64;
        let mut given: Vec<Vec<Vec<u8>>> = Vec::new();
        for (found_size, selector) in &pipeline.results {
            if *found_size == size {
                if let Some(group) = selector.by_hash.get(&key(content)) {
                    given.push(group.iter().map(|p| p.bytes.clone()).collect());
                }
            }
        }
        if names.is_empty() {
            assert!(given.is_empty());
        } else {
            assert_eq!(given.len(), 1);
            given[0].sort();
            let expected: Vec<Vec<u8>> = names.iter().map(|n| n.as_bytes().to_vec()).collect();
            assert_eq!(given[0], expected);
        }
    }
}

#[test]
fn progress_is_shown() {
    assert_eq!(
        hashing_progress_text(12, 3),
        format!("\r{: >9} partial tasks left and {: >9} full hashing tasks left", 12, 3)
    );
    assert_eq!(tasks_left_text(7), format!("\r{: >9} tasks left", 7));
}
