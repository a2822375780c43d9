use rsdupes::path::FilePath;
use rsdupes::path_order::insert_path;
use std::path::PathBuf;

fn path(text: &str) -> FilePath {
    FilePath { bytes: text.as_bytes().to_vec() }
}

const SPELLINGS: [&str; 34] = [
    "", ".", "..", "/", "//", "a", "a/", "a//b", "a/./b", "./a", "/./a", "a/.", "a/..", "../a",
    "/a/b.txt", "b.txt", "b.tar.gz", ".hidden", ".hidden.txt", "a/.hidden", "dir.d/file", "file.",
    "..a", "...", "a..b", "a.b/", "a.b/.", "a/b/../c.d", "/a/..", "é.ü", "a.b.", "x/.y/z.w", "a-b/c",
    "a/b",
];

#[test]
fn paths_agree_with_those_of_std() {
    for text in SPELLINGS {
        let ours = path(text);
        let theirs = PathBuf::from(text);
        assert_eq!(
            ours.file_name(),
            theirs.file_name().map(|n| n.to_str().unwrap().as_bytes().to_vec()),
            "{:?}",
            text
        );
        assert_eq!(
            ours.extension(),
            theirs.extension().map(|n| n.to_str().unwrap().as_bytes().to_vec()),
            "{:?}",
            text
        );
        assert_eq!(
            ours.extension_text(),
            theirs.extension().map(|n| n.to_string_lossy().to_string()),
            "{:?}",
            text
        );
        assert_eq!(ours.to_text(), theirs.to_string_lossy().to_string());
        assert_eq!(ours.components().len(), theirs.components().count(), "{:?}", text);
    }
}

#[test]
fn prefixes_agree_with_those_of_std() {
    for text in SPELLINGS {
        for base in SPELLINGS {
            assert_eq!(
                path(text).starts_with(&path(base)),
                PathBuf::from(text).starts_with(base),
                "{:?} {:?}",
                text,
                base
            );
        }
    }
}

#[test]
fn order_agrees_with_that_of_std() {
    for a in SPELLINGS {
        for b in SPELLINGS {
            assert_eq!(
                path(a).precedes(&path(b)),
                PathBuf::from(a) < PathBuf::from(b),
                "{:?} {:?}",
                a,
                b
            );
        }
    }
}

#[test]
fn backups_agree_with_extensions_of_std() {
    for text in SPELLINGS {
        let mut theirs = PathBuf::from(text);
        let mut ext = theirs.extension().unwrap_or_default().to_string_lossy().to_string();
        ext.push_str(".bak");
        theirs.set_extension(ext);
        assert_eq!(path(text).backup().to_text(), theirs.to_str().unwrap(), "{:?}", text);
    }
}

#[test]
fn backup_names() {
    assert_eq!(path("photo.jpg").backup(), path("photo.jpg.bak"));
    assert_eq!(path("/x/photo.tar.gz").backup(), path("/x/photo.tar.gz.bak"));
    assert_eq!(path("README").backup(), path("README..bak"));
    assert_eq!(path(".hidden").backup(), path(".hidden..bak"));
}

#[test]
fn a_backup_is_another_path() {
    for text in ["a", "a.b", "/a/b.c", ".x", "a.bak"] {
        assert_ne!(path(text).backup(), path(text));
    }
}

#[test]
fn bytes_that_are_no_text_are_replaced() {
    let odd = FilePath { bytes: vec![b'a', 0xff, b'.', b'x', 0xfe] };
    assert_eq!(odd.to_text(), "a\u{fffd}.x\u{fffd}");
    assert_eq!(odd.extension_text(), Some("x\u{fffd}".to_string()));
    assert_eq!(odd.extension(), Some(vec![b'x', 0xfe]));
    // The extension is replaced by how it reads, so the backup holds the replacement character.
    assert_eq!(
        odd.backup().bytes,
        [&[b'a', 0xff][..], ".x\u{fffd}.bak".as_bytes()].concat()
    );
}

#[test]
fn a_prefix_of_a_prefix_is_a_prefix() {
    let deep = path("/a/b/c");
    let middle = path("/a//b/");
    let base = path("/a");
    assert!(deep.starts_with(&deep));
    assert!(deep.starts_with(&middle));
    assert!(middle.starts_with(&base));
    assert!(deep.starts_with(&base));
    assert!(!path("/ab").starts_with(&base));
}

#[test]
fn paths_are_inserted_in_order_and_once() {
    let mut paths: Vec<FilePath> = Vec::new();
    for text in ["b", "a/x", "c", "a//x", "./b", "a", "a-b", "b/"] {
        insert_path(&mut paths, path(text));
    }
    let texts: Vec<String> = paths.iter().map(|p| p.to_text()).collect();
    assert_eq!(texts, vec!["./b", "a", "a/x", "a-b", "b", "c"]);
}
