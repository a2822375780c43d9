//! Finding the files that may have duplicates: walking directories, choosing by extension,
//! leaving out files that were met before under another name, and holding back files whose size
//! no other file has.

use crate::gate::{gate_next, gate_out};
use crate::path::{
    components, extension, extension_text, lossy_text, path_starts_with, FilePath,
};
use std::collections::{BTreeSet, HashMap, VecDeque};
use vstd::prelude::*;

verus! {

broadcast use {
    vstd::std_specs::hash::group_hash_axioms,
    vstd::std_specs::btree::group_btree_axioms,
    vstd::laws_cmp::group_laws_cmp,
};

/// What a directory entry is, as far as the walk is concerned.
#[derive(Clone, Copy, Debug, PartialEq, Eq, Structural)]
pub enum EntryKind {
    File,
    Directory,
    /// Neither a file nor a directory, such as a symbolic link.
    Other,
}

/// Walks directories breadth first. `queue` holds the directories that are still to be read.
pub struct FileRecursionActor {
    pub queue: VecDeque<FilePath>,
    pub excluded_paths: Vec<FilePath>,
}

/// Whether a path is one of the excluded paths or lies below one.
pub open spec fn is_excluded(path: Seq<u8>, excluded: Seq<FilePath>) -> bool {
    exists|i: int| 0 <= i < excluded.len() && path_starts_with(path, (#[trigger] excluded[i])@)
}

/// What the walk hands on when it meets an entry: its path, if it is a file that is not excluded.
pub open spec fn file_of_entry(
    path: FilePath,
    kind: Option<EntryKind>,
    excluded: Seq<FilePath>,
) -> Option<FilePath> {
    if kind == Some(EntryKind::File) && !is_excluded(path@, excluded) {
        Some(path)
    } else {
        None
    }
}

/// What waits when the walk has met an entry: its path waits last, if it is a directory that is
/// not excluded.
pub open spec fn queue_after_entry(
    queue: Seq<FilePath>,
    path: FilePath,
    kind: Option<EntryKind>,
    excluded: Seq<FilePath>,
) -> Seq<FilePath> {
    if kind == Some(EntryKind::Directory) && !is_excluded(path@, excluded) {
        queue.push(path)
    } else {
        queue
    }
}

impl FileRecursionActor {
    /// Takes the directory that has waited longest.
    pub fn next_directory(&mut self) -> (next: Option<FilePath>)
        ensures
            final(self).excluded_paths == old(self).excluded_paths,
            match next {
                Some(path) => old(self).queue@.len() > 0 && path == old(self).queue@[0]
                    && final(self).queue@ == old(self).queue@.drop_first(),
                None => old(self).queue@.len() == 0 && final(self).queue@ == old(self).queue@,
            },
    {
        let next = self.queue.pop_front();
        proof {
            if old(self).queue@.len() > 0 {
                assert(self.queue@ =~= old(self).queue@.drop_first());
            }
        }
        next
    }

    /// Whether the walk leaves a path out.
    pub fn excludes(&self, path: &FilePath) -> (excluded: bool)
        ensures
            excluded == is_excluded(path@, self.excluded_paths@),
            excluded <==> exists|i: int|
                0 <= i < self.excluded_paths@.len() && components(
                    (#[trigger] self.excluded_paths@[i])@,
                ).is_prefix_of(components(path@)),
    {
        let mut i: usize = 0;
        while i < self.excluded_paths.len()
            invariant
                i <= self.excluded_paths@.len(),
                forall|j: int|
                    0 <= j < i ==> !path_starts_with(path@, (#[trigger] self.excluded_paths@[j])@),
            decreases self.excluded_paths@.len() - i,
        {
            if path.starts_with(&self.excluded_paths[i]) {
                return true;
            }
            i = i + 1;
        }
        false
    }

    /// Deals with an entry of the directory that is being read. `kind` is `None` where it could
    /// not be found out. A file is handed on, a directory waits for its turn; an entry that is
    /// excluded or neither of the two is passed over.
    pub fn visit(&mut self, path: FilePath, kind: Option<EntryKind>) -> (file: Option<FilePath>)
        ensures
            final(self).excluded_paths == old(self).excluded_paths,
            file == file_of_entry(path, kind, old(self).excluded_paths@),
            file is Some <==> kind == Some(EntryKind::File) && !is_excluded(
                path@,
                old(self).excluded_paths@,
            ),
            file matches Some(found) ==> found == path,
            final(self).queue@ == if kind == Some(EntryKind::Directory) && !is_excluded(
                path@,
                old(self).excluded_paths@,
            ) {
                old(self).queue@.push(path)
            } else {
                old(self).queue@
            },
            final(self).queue@ == queue_after_entry(
                old(self).queue@,
                path,
                kind,
                old(self).excluded_paths@,
            ),
    {
        if self.excludes(&path) {
            return None;
        }
        match kind {
            Some(EntryKind::File) => Some(path),
            Some(EntryKind::Directory) => {
                self.queue.push_back(path);
                None
            },
            _ => None,
        }
    }
}

/// What the walk knows of a file.
#[derive(Clone, Copy, Debug, PartialEq, Eq, Structural)]
pub struct FileInfo {
    /// The device that the file is on.
    pub dev: u64,
    /// The number of the file on its device.
    pub ino: u64,
    /// The length of the file in bytes.
    pub size: u64,
}

/// Lets every file through once, whatever the number of names that lead to it.
pub struct INodeFilter {
    /// The device and the number of every file met so far.
    pub seen: BTreeSet<(u64, u64)>,
}

/// What passes when a path and what is known of its file come.
pub open spec fn inode_out(
    seen: Set<(u64, u64)>,
    path: FilePath,
    info: Option<FileInfo>,
) -> Option<(FilePath, FileInfo)> {
    match info {
        Some(info) => if seen.contains((info.dev, info.ino)) {
            None
        } else {
            Some((path, info))
        },
        None => None,
    }
}

/// The files that are known after that.
pub open spec fn inode_next(seen: Set<(u64, u64)>, info: Option<FileInfo>) -> Set<(u64, u64)> {
    match info {
        Some(info) => seen.insert((info.dev, info.ino)),
        None => seen,
    }
}

impl INodeFilter {
    pub fn new() -> (filter: INodeFilter)
        ensures
            filter.seen@ == Set::<(u64, u64)>::empty(),
    {
        INodeFilter { seen: BTreeSet::new() }
    }

    /// Deals with a path and what is known of its file; `None` where that could not be found out.
    pub fn receive(&mut self, path: FilePath, info: Option<FileInfo>) -> (passed: Option<
        (FilePath, FileInfo),
    >)
        ensures
            passed == inode_out(old(self).seen@, path, info),
            final(self).seen@ == inode_next(old(self).seen@, info),
            match info {
                Some(known) => {
                    &&& passed == if old(self).seen@.contains((known.dev, known.ino)) {
                        None
                    } else {
                        Some((path, known))
                    }
                    &&& final(self).seen@ == old(self).seen@.insert((known.dev, known.ino))
                },
                None => passed is None && final(self).seen@ == old(self).seen@,
            },
    {
        match info {
            None => None,
            Some(info) => {
                if self.seen.insert((info.dev, info.ino)) {
                    Some((path, info))
                } else {
                    None
                }
            },
        }
    }
}

/// A file that has the size of another one.
#[derive(Debug, PartialEq, Eq)]
pub struct FileSizeMessage {
    pub path: FilePath,
    pub size: u64,
}

/// Lets files through that have the size of another file. A file below the minimum size is
/// dropped.
pub struct FileSizeFilter {
    /// For every size met so far, the first file with that size while it is the only one.
    pub seen: HashMap<u64, Option<FilePath>>,
    pub minimum_size: u64,
}

/// What passes when a file comes.
pub open spec fn size_out(
    minimum_size: u64,
    held: Map<u64, Option<FileSizeMessage>>,
    message: FileSizeMessage,
) -> Seq<FileSizeMessage> {
    if message.size < minimum_size {
        seq![]
    } else {
        gate_out(held, message.size, message)
    }
}

/// What is held back after that.
pub open spec fn size_next(
    minimum_size: u64,
    held: Map<u64, Option<FileSizeMessage>>,
    message: FileSizeMessage,
) -> Map<u64, Option<FileSizeMessage>> {
    if message.size < minimum_size {
        held
    } else {
        gate_next(held, message.size, message)
    }
}

impl FileSizeFilter {
    /// The messages that are held back, by size.
    pub open spec fn held(&self) -> Map<u64, Option<FileSizeMessage>> {
        Map::new(
            |size: u64| self.seen@.contains_key(size),
            |size: u64|
                match self.seen@[size] {
                    Some(path) => Some(FileSizeMessage { path, size }),
                    None => None,
                },
        )
    }

    pub fn new(minimum_size: u64) -> (filter: FileSizeFilter)
        ensures
            filter.minimum_size == minimum_size,
            filter.held() == Map::<u64, Option<FileSizeMessage>>::empty(),
    {
        let filter = FileSizeFilter { seen: HashMap::new(), minimum_size };
        assert(filter.held() =~= Map::empty());
        filter
    }

    /// Deals with a file; gives what passes, in order.
    pub fn receive(&mut self, path: FilePath, size: u64) -> (passed: Vec<FileSizeMessage>)
        ensures
            final(self).minimum_size == old(self).minimum_size,
            passed@ == size_out(
                old(self).minimum_size,
                old(self).held(),
                FileSizeMessage { path, size },
            ),
            final(self).held() == size_next(
                old(self).minimum_size,
                old(self).held(),
                FileSizeMessage { path, size },
            ),
            ({
                let held = old(self).held();
                let message = FileSizeMessage { path, size };
                if size < old(self).minimum_size {
                    passed@.len() == 0 && final(self).held() == held
                } else if !held.contains_key(size) {
                    passed@.len() == 0 && final(self).held() == held.insert(size, Some(message))
                } else {
                    &&& passed@ == match held[size] {
                        Some(first) => seq![first, message],
                        None => seq![message],
                    }
                    &&& final(self).held() == held.insert(size, None)
                }
            }),
    {
        let mut passed: Vec<FileSizeMessage> = Vec::new();
        let ghost message = FileSizeMessage { path, size };
        if size < self.minimum_size {
            return passed;
        }
        match self.seen.remove(&size) {
            Some(held) => {
                if let Some(first) = held {
                    passed.push(FileSizeMessage { path: first, size });
                }
                passed.push(FileSizeMessage { path, size });
                self.seen.insert(size, None);
            },
            None => {
                self.seen.insert(size, Some(path));
            },
        }
        assert(passed@ =~= gate_out(old(self).held(), size, message));
        assert(self.held() =~= gate_next(old(self).held(), size, message));
        passed
    }
}

/// Chooses files by their extension.
pub struct FileExclusionFilter {
    pub excluded_extensions: Option<Vec<String>>,
    pub included_extensions: Option<Vec<String>>,
}

/// Whether a list of extensions names the given one.
pub open spec fn names_extension(list: Seq<String>, ext: Option<Seq<char>>) -> bool {
    exists|i: int| 0 <= i < list.len() && ext == Some((#[trigger] list[i])@)
}

/// Whether a file with the given extension passes: it is not among the excluded ones, and if
/// there is a list of included ones, it is among those.
pub open spec fn extension_passes(
    excluded: Option<Vec<String>>,
    included: Option<Vec<String>>,
    ext: Option<Seq<char>>,
) -> bool {
    &&& excluded matches Some(list) ==> !names_extension(list@, ext)
    &&& included matches Some(list) ==> names_extension(list@, ext)
}

/// Whether a list of extensions names the given one.
fn lists_extension(list: &Vec<String>, ext: &Option<String>) -> (found: bool)
    ensures
        found == names_extension(
            list@,
            match *ext {
                Some(text) => Some(text@),
                None => None,
            },
        ),
        found <==> *ext is Some && exists|i: int|
            0 <= i < list@.len() && (#[trigger] list@[i])@ == (*ext)->0@,
{
    match ext {
        None => false,
        Some(text) => {
            let mut i: usize = 0;
            while i < list.len()
                invariant
                    *ext == Some(*text),
                    i <= list@.len(),
                    forall|j: int| 0 <= j < i ==> (#[trigger] list@[j])@ != text@,
                decreases list@.len() - i,
            {
                if list[i] == *text {
                    assert(list@[i as int]@ == text@);
                    return true;
                }
                i = i + 1;
            }
            false
        },
    }
}

impl FileExclusionFilter {
    /// Whether a file whose extension reads `ext` passes.
    pub fn admits_extension(&self, ext: &Option<String>) -> (passes: bool)
        ensures
            passes == extension_passes(
                self.excluded_extensions,
                self.included_extensions,
                match *ext {
                    Some(text) => Some(text@),
                    None => None,
                },
            ),
            passes <==> {
                &&& self.excluded_extensions is Some && *ext is Some ==> forall|i: int|
                    0 <= i < self.excluded_extensions->0@.len() ==> (
                    #[trigger] self.excluded_extensions->0@[i])@ != (*ext)->0@
                &&& self.included_extensions is Some ==> *ext is Some && exists|i: int|
                    0 <= i < self.included_extensions->0@.len() && (
                    #[trigger] self.included_extensions->0@[i])@ == (*ext)->0@
            },
    {
        if let Some(list) = &self.excluded_extensions {
            if lists_extension(list, ext) {
                return false;
            }
        }
        if let Some(list) = &self.included_extensions {
            if !lists_extension(list, ext) {
                return false;
            }
        }
        true
    }

    /// Whether a file passes.
    pub open spec fn admitted(&self, path: FilePath) -> bool {
        extension_passes(
            self.excluded_extensions,
            self.included_extensions,
            extension_text(path@),
        )
    }

    /// Whether a file passes.
    pub fn admits(&self, path: &FilePath) -> (passes: bool)
        ensures
            passes == self.admitted(*path),
            passes <==> ({
                let ext = extension(path@);
                &&& self.excluded_extensions is Some && ext is Some ==> forall|i: int|
                    0 <= i < self.excluded_extensions->0@.len() ==> (
                    #[trigger] self.excluded_extensions->0@[i])@ != lossy_text(ext->0)
                &&& self.included_extensions is Some ==> ext is Some && exists|i: int|
                    0 <= i < self.included_extensions->0@.len() && (
                    #[trigger] self.included_extensions->0@[i])@ == lossy_text(ext->0)
            }),
    {
        let ext = path.extension_text();
        self.admits_extension(&ext)
    }

    /// Takes a batch of files; gives those that pass, in order.
    pub fn receive(&self, batch: Vec<FilePath>) -> (passed: Vec<FilePath>)
        ensures
            passed@ == batch@.filter(|path: FilePath| self.admitted(path)),
    {
        let mut passed: Vec<FilePath> = Vec::new();
        let ghost all = batch@;
        let ghost keep = |path: FilePath| self.admitted(path);
        for path in it: batch
            invariant
                it.seq() == all,
                keep == (|path: FilePath| self.admitted(path)),
                passed@ == all.take(it.index()).filter(keep),
        {
            assert(all.take(it.index() + 1) =~= all.take(it.index()).push(path));
            proof {
                all.take(it.index()).lemma_filter_push(path, keep);
            }
            if self.admits(&path) {
                passed.push(path);
            }
        }
        assert(all.take(all.len() as int) =~= all);
        passed
    }
}

} // verus!
