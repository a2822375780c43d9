use rsdupes::file_discovery_actors::{
    EntryKind, FileExclusionFilter, FileInfo, FileRecursionActor, FileSizeFilter, FileSizeMessage,
    INodeFilter,
};
use rsdupes::path::FilePath;
use std::collections::VecDeque;

fn path(text: &str) -> FilePath {
    FilePath { bytes: text.as_bytes().to_vec() }
}

fn walk(start: &[&str], excluded: &[&str]) -> FileRecursionActor {
    FileRecursionActor {
        queue: start.iter().map(|t| path(t)).collect::<VecDeque<FilePath>>(),
        excluded_paths: excluded.iter().map(|t| path(t)).collect(),
    }
}

fn info(dev: u64, ino: u64, size: u64) -> Option<FileInfo> {
    Some(FileInfo { dev, ino, size })
}

fn message(text: &str, size: u64) -> FileSizeMessage {
    FileSizeMessage { path: path(text), size }
}

#[test]
fn directories_are_walked_in_the_order_in_which_they_are_met() {
    let mut walk = walk(&["r", "s"], &[]);
    assert_eq!(walk.next_directory(), Some(path("r")));
    assert_eq!(walk.visit(path("r/f"), Some(EntryKind::File)), Some(path("r/f")));
    assert_eq!(walk.visit(path("r/d"), Some(EntryKind::Directory)), None);
    assert_eq!(walk.visit(path("r/link"), Some(EntryKind::Other)), None);
    assert_eq!(walk.visit(path("r/unknown"), None), None);
    assert_eq!(walk.next_directory(), Some(path("s")));
    assert_eq!(walk.next_directory(), Some(path("r/d")));
    assert_eq!(walk.next_directory(), None);
    assert_eq!(walk.next_directory(), None);
}

#[test]
fn excluded_paths_are_left_out() {
    let mut walk = walk(&["r"], &["r/no", "r/x.txt"]);
    assert!(walk.excludes(&path("r/no")));
    assert!(walk.excludes(&path("r//no/below")));
    assert!(!walk.excludes(&path("r/nothing")));
    assert_eq!(walk.next_directory(), Some(path("r")));
    assert_eq!(walk.visit(path("r/x.txt"), Some(EntryKind::File)), None);
    assert_eq!(walk.visit(path("r/no"), Some(EntryKind::Directory)), None);
    assert_eq!(walk.visit(path("r/nothing"), Some(EntryKind::File)), Some(path("r/nothing")));
    assert_eq!(walk.next_directory(), None);
}

#[test]
fn a_walk_finds_every_file_of_a_tree_once() {
    let tree: [(&str, &[(&str, EntryKind)]); 4] = [
        ("t", &[("t/a", EntryKind::Directory), ("t/f", EntryKind::File)]),
        ("t/a", &[("t/a/g", EntryKind::File), ("t/a/b", EntryKind::Directory)]),
        ("t/a/b", &[("t/a/b/h", EntryKind::File), ("t/a/b/l", EntryKind::Other)]),
        ("elsewhere", &[("elsewhere/i", EntryKind::File)]),
    ];
    let mut walk = walk(&["t"], &[]);
    let mut found: Vec<FilePath> = Vec::new();
    while let Some(directory) = walk.next_directory() {
        for (name, entries) in tree {
            if path(name) == directory {
                for (entry, kind) in entries {
                    if let Some(file) = walk.visit(path(entry), Some(*kind)) {
                        found.push(file);
                    }
                }
            }
        }
    }
    assert_eq!(found, vec![path("t/f"), path("t/a/g"), path("t/a/b/h")]);
}

#[test]
fn walks_of_several_directories_add_up() {
    let tree: [(&str, &[(&str, EntryKind)]); 3] = [
        ("a", &[("a/f", EntryKind::File), ("a/d", EntryKind::Directory)]),
        ("a/d", &[("a/d/g", EntryKind::File)]),
        ("b", &[("b/h", EntryKind::File), ("b/no", EntryKind::File)]),
    ];
    let find = |roots: &[&str]| {
        let mut walk = walk(roots, &["b/no"]);
        let mut found: Vec<Vec<u8>> = Vec::new();
        let mut read = 0;
        while let Some(directory) = walk.next_directory() {
            read += 1;
            for (name, entries) in tree {
                if path(name) == directory {
                    for (entry, kind) in entries {
                        if let Some(file) = walk.visit(path(entry), Some(*kind)) {
                            found.push(file.bytes);
                        }
                    }
                }
            }
        }
        found.sort();
        (found, read)
    };
    let (all, read) = find(&["a", "b", "a"]);
    assert_eq!(read, 5);
    let mut each = find(&["a"]).0;
    each.extend(find(&["b", "a"]).0);
    each.sort();
    assert_eq!(all, each);
    assert_eq!(all.len(), 5);
    assert!(find(&[]).0.is_empty());
}

#[test]
fn every_file_passes_once_whatever_its_names() {
    let mut filter = INodeFilter::new();
    let known = FileInfo { dev: 1, ino: 7, size: 3 };
    assert_eq!(filter.receive(path("a"), Some(known)), Some((path("a"), known)));
    assert_eq!(filter.receive(path("b"), Some(known)), None);
    assert_eq!(filter.receive(path("gone"), None), None);
    assert!(filter.receive(path("c"), info(2, 7, 3)).is_some());
    assert!(filter.receive(path("d"), info(1, 8, 3)).is_some());
    assert!(filter.receive(path("e"), info(2, 7, 9)).is_none());
}

#[test]
fn files_pass_when_their_size_is_shared() {
    let mut filter = FileSizeFilter::new(1);
    assert_eq!(filter.receive(path("a"), 5), vec![]);
    assert_eq!(filter.receive(path("b"), 6), vec![]);
    assert_eq!(filter.receive(path("c"), 5), vec![message("a", 5), message("c", 5)]);
    assert_eq!(filter.receive(path("d"), 5), vec![message("d", 5)]);
    assert_eq!(filter.receive(path("e"), 6), vec![message("b", 6), message("e", 6)]);
}

#[test]
fn small_files_are_left_out() {
    let mut filter = FileSizeFilter::new(10);
    assert_eq!(filter.receive(path("a"), 9), vec![]);
    assert_eq!(filter.receive(path("b"), 9), vec![]);
    assert_eq!(filter.receive(path("c"), 10), vec![]);
    assert_eq!(filter.receive(path("d"), 10), vec![message("c", 10), message("d", 10)]);
    let mut all = FileSizeFilter::new(0);
    assert_eq!(all.receive(path("a"), 0), vec![]);
    assert_eq!(all.receive(path("b"), 0), vec![message("a", 0), message("b", 0)]);
}

fn list(extensions: &[&str]) -> Option<Vec<String>> {
    Some(extensions.iter().map(|e| e.to_string()).collect())
}

fn batch(texts: &[&str]) -> Vec<FilePath> {
    texts.iter().map(|t| path(t)).collect()
}

#[test]
fn extensions_choose_files() {
    let all = ["a.png", "b.jpg", "c", "d.PNG", "e.png.jpg", ".png"];
    let none = FileExclusionFilter { excluded_extensions: None, included_extensions: None };
    assert_eq!(none.receive(batch(&all)), batch(&all));
    let included = FileExclusionFilter {
        excluded_extensions: None,
        included_extensions: list(&["png", "gif"]),
    };
    assert_eq!(included.receive(batch(&all)), batch(&["a.png"]));
    let excluded = FileExclusionFilter {
        excluded_extensions: list(&["png"]),
        included_extensions: None,
    };
    assert_eq!(
        excluded.receive(batch(&all)),
        batch(&["b.jpg", "c", "d.PNG", "e.png.jpg", ".png"])
    );
    let both = FileExclusionFilter {
        excluded_extensions: list(&["png"]),
        included_extensions: list(&["png", "jpg"]),
    };
    assert_eq!(both.receive(batch(&all)), batch(&["b.jpg", "e.png.jpg"]));
    let nothing = FileExclusionFilter { excluded_extensions: None, included_extensions: list(&[]) };
    assert_eq!(nothing.receive(batch(&all)), vec![]);
}

#[test]
fn an_extension_is_compared_as_it_reads() {
    let odd = FilePath { bytes: vec![b'a', b'.', 0xff] };
    let filter = FileExclusionFilter {
        excluded_extensions: None,
        included_extensions: list(&["\u{fffd}"]),
    };
    assert!(filter.admits(&odd));
    assert!(filter.admits_extension(&Some("\u{fffd}".to_string())));
    assert!(!filter.admits_extension(&None));
}
