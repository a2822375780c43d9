use rsdupes::collector::TestCollector;
use rsdupes::comparator::DuplicateMessage;
use rsdupes::digest::Digest;
use rsdupes::full_hash::FullHashMessage;
use rsdupes::json_dump::{DuplicateList, JsonDumper};
use rsdupes::path::FilePath;
use rsdupes::text_order::sort_entries;

fn path(text: &str) -> FilePath {
    FilePath { bytes: text.as_bytes().to_vec() }
}

fn texts(list: &[&str]) -> Vec<String> {
    list.iter().map(|t| t.to_string()).collect()
}

fn duplicate(content: &[u8], original: &str, duplicate: &str) -> DuplicateMessage {
    DuplicateMessage {
        file_size: content.len() as u64,
        hash: Digest::of(content),
        original: path(original),
        duplicate: path(duplicate),
    }
}

const ABC: &str = "ba7816bf8f01cfea414140de5dae2223b00361a396177a9cb410ff61f20015ad";

#[test]
fn duplicates_are_listed_by_size_digest_and_original() {
    let mut dumper = JsonDumper::new();
    dumper.receive(&duplicate(b"abc", "x", "y"));
    dumper.receive(&duplicate(b"abc", "v", "w"));
    dumper.receive(&duplicate(b"abc", "x", "z"));
    dumper.receive(&duplicate(b"", "p", "q"));
    let report = dumper.report();
    assert_eq!(report.len(), 2);
    assert_eq!(report[0].0, "0");
    assert_eq!(report[0].1[0].1, vec![("p".to_string(), texts(&["q"]))]);
    assert_eq!(report[1].0, "3");
    assert_eq!(
        report[1].1,
        vec![(
            ABC.to_string(),
            vec![("v".to_string(), texts(&["w"])), ("x".to_string(), texts(&["y", "z"]))]
        )]
    );
}

#[test]
fn a_list_without_duplicates_is_empty() {
    assert!(JsonDumper::new().report().is_empty());
    assert!(DuplicateList::new().report().is_empty());
}

#[test]
fn paths_are_listed_as_they_read() {
    let mut dumper = JsonDumper::new();
    let mut message = duplicate(b"abc", "x", "y");
    message.duplicate = FilePath { bytes: vec![b'y', 0xff] };
    dumper.receive(&message);
    assert_eq!(dumper.report()[0].1[0].1, vec![("x".to_string(), texts(&["y\u{fffd}"]))]);
    let mut list = DuplicateList::new();
    list.add("o".to_string(), "d".to_string());
    list.add("o".to_string(), "d".to_string());
    assert_eq!(list.report(), vec![("o".to_string(), texts(&["d", "d"]))]);
}

#[test]
fn lists_stand_in_the_order_of_their_texts() {
    let mut collector = TestCollector::new();
    let mut dumper = JsonDumper::new();
    for size in [9u64, 100, 10, 2, 21] {
        for first in [3u128, 1, 2] {
            let hash = Digest { first, second: 0 };
            collector.receive(FullHashMessage { file_size: size, hash, path: path("a") });
            for name in ["b", "é", "a", "Z", "aa"] {
                dumper.receive(&DuplicateMessage {
                    file_size: size,
                    hash,
                    original: path(name),
                    duplicate: path("d"),
                });
            }
        }
    }
    let sizes = texts(&["10", "100", "2", "21", "9"]);
    let collected = collector.report();
    let listed = dumper.report();
    assert_eq!(collected.iter().map(|e| e.0.clone()).collect::<Vec<String>>(), sizes);
    assert_eq!(listed.iter().map(|e| e.0.clone()).collect::<Vec<String>>(), sizes);
    for (_, bucket) in &collected {
        assert_eq!(bucket.len(), 3);
        assert!(bucket[0].0.starts_with("01") && bucket[1].0.starts_with("02"));
    }
    for (_, bucket) in &listed {
        assert!(bucket[0].0.starts_with("01") && bucket[2].0.starts_with("03"));
        for (_, list) in bucket {
            assert_eq!(
                list.iter().map(|e| e.0.clone()).collect::<Vec<String>>(),
                texts(&["Z", "a", "aa", "b", "é"])
            );
        }
    }
}

#[test]
fn entries_are_sorted() {
    let words = ["pear", "fig", "", "plum", "figs", "apple", "Fig"];
    let entries: Vec<(String, usize)> =
        words.iter().enumerate().map(|(i, w)| (w.to_string(), i)).collect();
    let mut expected = entries.clone();
    expected.sort();
    assert_eq!(sort_entries(entries), expected);
}

fn hashed(content: &[u8], name: &str) -> FullHashMessage {
    FullHashMessage {
        file_size: content.len() as u64,
        hash: Digest::of(content),
        path: path(name),
    }
}

#[test]
fn files_are_collected_by_size_and_digest() {
    let mut collector = TestCollector::new();
    assert_eq!(
        collector.progress(),
        "\r0 Items collected in 0 size buckets consisting of 0 different hashes"
    );
    collector.receive(hashed(b"abc", "a"));
    collector.receive(hashed(b"abd", "b"));
    collector.receive(hashed(b"abc", "c"));
    collector.receive(hashed(b"", "d"));
    assert_eq!(
        collector.progress(),
        "\r4 Items collected in 2 size buckets consisting of 3 different hashes"
    );
    let report = collector.report();
    assert_eq!(report.len(), 2);
    assert_eq!(report[0].0, "0");
    assert_eq!(
        report[0].1,
        vec![(
            "e3b0c44298fc1c149afbf4c8996fb92427ae41e4649b934ca495991b7852b855".to_string(),
            texts(&["d"])
        )]
    );
    assert_eq!(report[1].0, "3");
    assert_eq!(report[1].1.len(), 2);
    let of_abc: Vec<&(String, Vec<String>)> =
        report[1].1.iter().filter(|e| e.0 == ABC).collect();
    assert_eq!(of_abc, vec![&(ABC.to_string(), texts(&["a", "c"]))]);
}
