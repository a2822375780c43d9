//! Selecting files in whole buckets: by size, by the digest of their start, and by the digest of
//! all of them.

use crate::digest::{content_digest, Digest, HASH_LIMIT};
use crate::file_discovery_actors::FileInfo;
use crate::maps::{keys_of, lemma_keys_of};
use crate::path::FilePath;
use crate::path_order::{copy_paths, path_bytes};
use crate::status::{count_column, count_text};
use crate::text::{decimal, hex, right_aligned};
use std::collections::{BTreeMap, BTreeSet, HashMap};
use vstd::prelude::*;
use vstd::slice::slice_subrange;
use vstd::std_specs::iter::IteratorSpec;
use vstd::string::*;

verus! {

broadcast use {
    vstd::std_specs::hash::group_hash_axioms,
    vstd::std_specs::btree::group_btree_axioms,
    vstd::laws_cmp::group_laws_cmp,
};

/// Files by size.
pub struct FileSizeSelector {
    pub by_sizes: HashMap<u64, Vec<FilePath>>,
}

impl View for FileSizeSelector {
    type V = Map<u64, Seq<FilePath>>;

    /// The files of every size, in the order in which they came.
    open spec fn view(&self) -> Map<u64, Seq<FilePath>> {
        self.by_sizes@.map_values(|paths: Vec<FilePath>| paths@)
    }
}

impl Default for FileSizeSelector {
    fn default() -> (selector: FileSizeSelector)
        ensures
            selector@ == Map::<u64, Seq<FilePath>>::empty(),
    {
        let selector = FileSizeSelector { by_sizes: HashMap::new() };
        assert(selector@ =~= Map::empty());
        selector
    }
}

/// Whether a file is taken into a bucket: it is not empty, and was not met before under another
/// name.
pub open spec fn is_selected(seen: Set<(u64, u64)>, info: Option<FileInfo>) -> bool {
    info matches Some(info) && info.size > 0 && !seen.contains((info.dev, info.ino))
}

/// The files met, with one more where it is taken into a bucket.
pub open spec fn seen_after(seen: Set<(u64, u64)>, info: Option<FileInfo>) -> Set<(u64, u64)> {
    if is_selected(seen, info) {
        seen.insert((info->0.dev, info->0.ino))
    } else {
        seen
    }
}

/// Buckets with one more file.
pub open spec fn with_size<T>(buckets: Map<u64, Seq<T>>, size: u64, file: T) -> Map<u64, Seq<T>> {
    buckets.insert(
        size,
        if buckets.contains_key(size) {
            buckets[size].push(file)
        } else {
            seq![file]
        },
    )
}

/// The buckets, with a file where it is taken into one.
pub open spec fn buckets_after(
    seen: Set<(u64, u64)>,
    buckets: Map<u64, Seq<FilePath>>,
    path: FilePath,
    info: Option<FileInfo>,
) -> Map<u64, Seq<FilePath>> {
    if is_selected(seen, info) {
        with_size(buckets, info->0.size, path)
    } else {
        buckets
    }
}

/// The files met after all of `files` have come, from none.
pub open spec fn seen_in(files: Seq<(FilePath, Option<FileInfo>)>) -> Set<(u64, u64)>
    decreases files.len(),
{
    if files.len() == 0 {
        Set::empty()
    } else {
        seen_after(seen_in(files.drop_last()), files.last().1)
    }
}

/// The buckets after all of `files` have come.
pub open spec fn collected_buckets(
    buckets: Map<u64, Seq<FilePath>>,
    files: Seq<(FilePath, Option<FileInfo>)>,
) -> Map<u64, Seq<FilePath>>
    decreases files.len(),
{
    if files.len() == 0 {
        buckets
    } else {
        buckets_after(
            seen_in(files.drop_last()),
            collected_buckets(buckets, files.drop_last()),
            files.last().0,
            files.last().1,
        )
    }
}

impl FileSizeSelector {
    /// Takes a file into the bucket of its size.
    fn select(&mut self, size: u64, path: FilePath)
        ensures
            final(self)@ == with_size(old(self)@, size, path),
            final(self)@ == old(self)@.insert(
                size,
                if old(self)@.contains_key(size) {
                    old(self)@[size].push(path)
                } else {
                    seq![path]
                },
            ),
    {
        let mut paths: Vec<FilePath> = match self.by_sizes.remove(&size) {
            Some(paths) => paths,
            None => Vec::new(),
        };
        let ghost p = path;
        paths.push(path);
        assert(old(self)@.contains_key(size) ==> paths@ =~= old(self)@[size].push(p));
        assert(!old(self)@.contains_key(size) ==> paths@ =~= seq![p]);
        self.by_sizes.insert(size, paths);
        assert(self@ =~= with_size(old(self)@, size, p));
    }

    /// Sorts files into buckets by size. With every path comes what is known of its file; `None`
    /// where that could not be found out. Gives the paths of which nothing is known.
    pub fn run_collection(&mut self, files: Vec<(FilePath, Option<FileInfo>)>) -> (unknown: Vec<
        FilePath,
    >)
        ensures
            final(self)@ == collected_buckets(old(self)@, files@),
            unknown@ == files@.filter(|f: (FilePath, Option<FileInfo>)| f.1 is None).map_values(
                |f: (FilePath, Option<FileInfo>)| f.0,
            ),
    {
        let mut seen: BTreeSet<(u64, u64)> = BTreeSet::new();
        let mut unknown: Vec<FilePath> = Vec::new();
        let ghost all = files@;
        let ghost before = self@;
        let ghost is_unknown = |f: (FilePath, Option<FileInfo>)| f.1 is None;
        let ghost path_of = |f: (FilePath, Option<FileInfo>)| f.0;
        assert(all.take(0) =~= seq![]);
        assert(unknown@ =~= all.take(0).filter(is_unknown).map_values(path_of));
        for file in it: files
            invariant
                it.seq() == all,
                is_unknown == (|f: (FilePath, Option<FileInfo>)| f.1 is None),
                path_of == (|f: (FilePath, Option<FileInfo>)| f.0),
                seen@ == seen_in(all.take(it.index())),
                self@ == collected_buckets(before, all.take(it.index())),
                unknown@ == all.take(it.index()).filter(is_unknown).map_values(path_of),
        {
            let ghost done = all.take(it.index());
            let ghost f = file;
            assert(all.take(it.index() + 1) =~= done.push(f));
            assert(done.push(f).drop_last() =~= done);
            proof {
                done.lemma_filter_push(f, is_unknown);
            }
            let (path, info) = file;
            match info {
                Some(info) => {
                    if info.size != 0 && seen.insert((info.dev, info.ino)) {
                        self.select(info.size, path);
                    } else {
                        assert(seen@ =~= seen_in(done));
                    }
                },
                None => {
                    unknown.push(path);
                    assert(done.filter(is_unknown).push(f).map_values(path_of) =~= done.filter(
                        is_unknown,
                    ).map_values(path_of).push(f.0));
                },
            }
        }
        assert(all.take(all.len() as int) =~= all);
        unknown
    }
}

/// The files with a digest, in the order in which they came.
pub open spec fn files_with(files: Seq<(FilePath, Digest)>, digest: Digest) -> Seq<FilePath> {
    files.filter(has_digest(digest)).map_values(|f: (FilePath, Digest)| f.0)
}

/// Whether a file has a digest.
pub open spec fn has_digest(digest: Digest) -> spec_fn((FilePath, Digest)) -> bool {
    |f: (FilePath, Digest)| f.1 == digest
}

/// The files by digest, without those whose digest no other file has.
pub open spec fn duplicates(files: Seq<(FilePath, Digest)>) -> Map<Digest, Seq<FilePath>> {
    Map::new(
        |digest: Digest| files_with(files, digest).len() > 1,
        |digest: Digest| files_with(files, digest),
    )
}

/// The lists of a map from digests, by digest.
pub open spec fn by_digest(map: Map<(u128, u128), Vec<FilePath>>) -> Map<Digest, Seq<FilePath>> {
    Map::new(
        |digest: Digest| map.contains_key((digest.first, digest.second)),
        |digest: Digest| map[(digest.first, digest.second)]@,
    )
}

/// The files with their digests, all of them.
pub open spec fn all_groups(files: Seq<(FilePath, Digest)>) -> Map<Digest, Seq<FilePath>> {
    Map::new(
        |digest: Digest| files_with(files, digest).len() > 0,
        |digest: Digest| files_with(files, digest),
    )
}

proof fn lemma_files_with_push(files: Seq<(FilePath, Digest)>, file: (FilePath, Digest), d: Digest)
    ensures
        files_with(files.push(file), d) == if file.1 == d {
            files_with(files, d).push(file.0)
        } else {
            files_with(files, d)
        },
{
    files.lemma_filter_push(file, has_digest(d));
    if file.1 == d {
        assert(files_with(files.push(file), d) =~= files_with(files, d).push(file.0));
    }
}

/// Sorts files by digest.
fn group_by_digest(files: Vec<(FilePath, Digest)>) -> (groups: BTreeMap<(u128, u128), Vec<FilePath>>)
    ensures
        by_digest(groups@) == all_groups(files@),
{
    let mut groups: BTreeMap<(u128, u128), Vec<FilePath>> = BTreeMap::new();
    let ghost all = files@;
    assert(all.take(0) =~= seq![]);
    assert(by_digest(groups@) =~= all_groups(all.take(0)));
    for file in it: files
        invariant
            it.seq() == all,
            by_digest(groups@) == all_groups(all.take(it.index())),
    {
        let ghost done = all.take(it.index());
        let ghost f = file;
        assert(all.take(it.index() + 1) =~= done.push(f));
        let (path, digest) = file;
        let key = (digest.first, digest.second);
        let ghost before = groups@;
        let mut paths: Vec<FilePath> = match groups.remove(&key) {
            Some(paths) => paths,
            None => Vec::new(),
        };
        proof {
            assert(by_digest(before).contains_key(digest) == before.contains_key(key));
            assert(before.contains_key(key) ==> by_digest(before)[digest] == before[key]@);
            assert(paths@ =~= files_with(done, digest));
        }
        paths.push(path);
        groups.insert(key, paths);
        proof {
            assert forall|d: Digest| #[trigger] by_digest(groups@).contains_key(d) == all_groups(
                done.push(f),
            ).contains_key(d) && (by_digest(groups@).contains_key(d) ==> by_digest(groups@)[d]
                == all_groups(done.push(f))[d]) by {
                lemma_files_with_push(done, f, d);
                assert(by_digest(before).contains_key(d) == all_groups(done).contains_key(d));
                if (d.first, d.second) == key {
                    assert(d == digest);
                } else if all_groups(done).contains_key(d) {
                    assert(by_digest(before)[d] == all_groups(done)[d]);
                }
            }
            assert(by_digest(groups@) =~= all_groups(done.push(f)));
        }
    }
    assert(all.take(all.len() as int) =~= all);
    groups
}

/// Sorts files by digest and leaves out those whose digest no other file has.
fn select_duplicates(files: Vec<(FilePath, Digest)>) -> (groups: BTreeMap<
    (u128, u128),
    Vec<FilePath>,
>)
    ensures
        by_digest(groups@) == duplicates(files@),
{
    let ghost all = files@;
    let mut groups = group_by_digest(files);
    let ghost full = groups@;
    let mut alone: Vec<(u128, u128)> = Vec::new();
    let walk = groups.iter();
    let ghost items = walk.remaining();
    let ghost keys = keys_of(items);
    for (key, paths) in it: walk
        invariant
            it.seq() == items,
            items == groups.iter().remaining(),
            full == groups@,
            forall|i: int| 0 <= i < it.index() ==> (full[*(#[trigger] items[i]).0]@.len() <= 1
                ==> alone@.contains(*items[i].0)),
            forall|i: int|
                0 <= i < alone@.len() ==> full.contains_key(#[trigger] alone@[i])
                    && full[alone@[i]]@.len() <= 1,
    {
        let ghost before = alone@;
        assert(items[it.index()] == (key, paths));
        assert(groups@.contains_key(*items[it.index()].0));
        if paths.len() <= 1 {
            alone.push(*key);
            assert(alone@[alone@.len() - 1] == *key);
            assert forall|k: (u128, u128)| before.contains(k) implies alone@.contains(k) by {
                let i = choose|i: int| 0 <= i < before.len() && before[i] == k;
                assert(alone@[i] == k);
            }
        }
    }
    proof {
        lemma_keys_of(items, full);
        assert forall|k: (u128, u128)| full.contains_key(k) && full[k]@.len() <= 1 implies alone@.contains(
            k,
        ) by {
            assert(keys.to_set().contains(k));
            let i = choose|i: int| 0 <= i < keys.len() && keys[i] == k;
            assert(*items[i].0 == k);
        }
    }
    let mut i: usize = 0;
    while i < alone.len()
        invariant
            i <= alone@.len(),
            forall|k: (u128, u128)| #[trigger]
                groups@.contains_key(k) <==> full.contains_key(k) && !alone@.take(
                    i as int,
                ).contains(k),
            forall|k: (u128, u128)| #[trigger]
                groups@.contains_key(k) ==> groups@[k] == full[k],
        decreases alone@.len() - i,
    {
        let ghost before = groups@;
        groups.remove(&alone[i]);
        assert(alone@.take(i + 1) =~= alone@.take(i as int).push(alone@[i as int]));
        assert forall|k: (u128, u128)| #[trigger] groups@.contains_key(k) <==> full.contains_key(k)
            && !alone@.take(i + 1).contains(k) by {
            let t = alone@.take(i as int);
            let x = alone@[i as int];
            assert(before.contains_key(k) <==> full.contains_key(k) && !t.contains(k));
            if t.contains(k) {
                let j = choose|j: int| 0 <= j < t.len() && t[j] == k;
                assert(t.push(x)[j] == k);
            }
            assert(t.push(x)[t.len() as int] == x);
        }
        i = i + 1;
    }
    proof {
        assert(alone@.take(i as int) =~= alone@);
        assert forall|d: Digest| #[trigger] by_digest(groups@).contains_key(d) == duplicates(
            all,
        ).contains_key(d) && (by_digest(groups@).contains_key(d) ==> by_digest(groups@)[d]
            == duplicates(all)[d]) by {
            let k = (d.first, d.second);
            assert(by_digest(full).contains_key(d) == all_groups(all).contains_key(d));
            assert(by_digest(full).contains_key(d) ==> by_digest(full)[d] == all_groups(all)[d]);
            assert(groups@.contains_key(k) <==> full.contains_key(k) && !alone@.contains(k));
            if alone@.contains(k) {
                let j = choose|j: int| 0 <= j < alone@.len() && alone@[j] == k;
                assert(full[alone@[j]]@.len() <= 1);
            }
        }
        assert(by_digest(groups@) =~= duplicates(all));
    }
    groups
}

/// The first `size` bytes of some data, or all of it where it is shorter.
pub open spec fn start_of(data: Seq<u8>, size: usize) -> Seq<u8> {
    if data.len() <= size {
        data
    } else {
        data.take(size as int)
    }
}

/// Files with the digests of their starts.
pub open spec fn partial_digests(
    files: Seq<(FilePath, Vec<u8>)>,
    partial_size: usize,
) -> Seq<(FilePath, Digest)> {
    files.map_values(
        |f: (FilePath, Vec<u8>)| (f.0, content_digest(start_of(f.1@, partial_size))),
    )
}

/// Files with the digests of all of them.
pub open spec fn full_digests(files: Seq<(FilePath, Vec<u8>)>) -> Seq<(FilePath, Digest)> {
    files.map_values(|f: (FilePath, Vec<u8>)| (f.0, content_digest(f.1@)))
}

/// Files by the digest of their start.
pub struct FilePartialHashSelector {
    pub by_hash: BTreeMap<(u128, u128), Vec<FilePath>>,
}

impl View for FilePartialHashSelector {
    type V = Map<Digest, Seq<FilePath>>;

    open spec fn view(&self) -> Map<Digest, Seq<FilePath>> {
        by_digest(self.by_hash@)
    }
}

impl Default for FilePartialHashSelector {
    fn default() -> (selector: FilePartialHashSelector)
        ensures
            selector@ == Map::<Digest, Seq<FilePath>>::empty(),
    {
        let selector = FilePartialHashSelector { by_hash: BTreeMap::new() };
        assert(selector@ =~= Map::empty());
        selector
    }
}

impl FilePartialHashSelector {
    /// Selects the files whose start has the digest of another's, given the digests.
    pub fn from_digests(files: Vec<(FilePath, Digest)>) -> (selector: FilePartialHashSelector)
        ensures
            selector@ == duplicates(files@),
    {
        FilePartialHashSelector { by_hash: select_duplicates(files) }
    }

    /// Selects the files whose first `partial_size` bytes have the digest of another's. With every
    /// path comes what was read from the start of its file.
    pub fn from_path_bucket(files: Vec<(FilePath, Vec<u8>)>, partial_size: usize) -> (selector:
        FilePartialHashSelector)
        requires
            forall|i: int|
                #![trigger files@[i]]
                0 <= i < files@.len() ==> start_of(files@[i].1@, partial_size).len() <= HASH_LIMIT,
        ensures
            selector@ == duplicates(partial_digests(files@, partial_size)),
    {
        let mut hashed: Vec<(FilePath, Digest)> = Vec::new();
        let ghost all = files@;
        for file in it: files
            invariant
                it.seq() == all,
                forall|i: int|
                    #![trigger all[i]]
                    0 <= i < all.len() ==> start_of(all[i].1@, partial_size).len() <= HASH_LIMIT,
                hashed@ == partial_digests(all, partial_size).take(it.index()),
        {
            let ghost f = file;
            let (path, data) = file;
            assert(all[it.index()] == f);
            let digest = if data.len() <= partial_size {
                Digest::of(data.as_slice())
            } else {
                let start = slice_subrange(data.as_slice(), 0, partial_size);
                assert(start@ =~= start_of(data@, partial_size));
                Digest::of(start)
            };
            hashed.push((path, digest));
            assert(partial_digests(all, partial_size)[it.index()] == (f.0, digest));
            assert(partial_digests(all, partial_size).take(it.index() + 1) =~= partial_digests(
                all,
                partial_size,
            ).take(it.index()).push((f.0, digest)));
        }
        assert(hashed@ =~= partial_digests(all, partial_size));
        FilePartialHashSelector::from_digests(hashed)
    }
}

/// Files by the digest of all of them.
#[derive(Clone)]
pub struct FullHashSelector {
    pub by_hash: BTreeMap<(u128, u128), Vec<FilePath>>,
}

impl View for FullHashSelector {
    type V = Map<Digest, Seq<FilePath>>;

    open spec fn view(&self) -> Map<Digest, Seq<FilePath>> {
        by_digest(self.by_hash@)
    }
}

impl Default for FullHashSelector {
    fn default() -> (selector: FullHashSelector)
        ensures
            selector@ == Map::<Digest, Seq<FilePath>>::empty(),
    {
        let selector = FullHashSelector { by_hash: BTreeMap::new() };
        assert(selector@ =~= Map::empty());
        selector
    }
}

/// Whether `digests` are the digests of some groups, each once.
pub open spec fn names_groups(digests: Seq<Digest>, groups: Map<Digest, Seq<FilePath>>) -> bool {
    &&& digests.no_duplicates()
    &&& digests.to_set() == groups.dom()
}

/// Whether a list names the digests of groups, in the given order, with the paths of each.
pub open spec fn lists_groups(
    entries: Seq<(String, Vec<FilePath>)>,
    groups: Map<Digest, Seq<FilePath>>,
    digests: Seq<Digest>,
) -> bool {
    &&& names_groups(digests, groups)
    &&& entries.len() == digests.len()
    &&& forall|i: int|
        #![trigger entries[i]]
        0 <= i < entries.len() ==> entries[i].0@ == hex(digests[i]@) && path_bytes(entries[i].1@)
            == path_bytes(groups[digests[i]])
}

impl FullHashSelector {
    /// Selects the files that have the digest of another file, given the digests.
    pub fn from_digests(files: Vec<(FilePath, Digest)>) -> (selector: FullHashSelector)
        ensures
            selector@ == duplicates(files@),
    {
        FullHashSelector { by_hash: select_duplicates(files) }
    }

    /// Selects the files that have the digest of another file. With every path comes the content
    /// of its file.
    pub fn from_path_bucket(files: Vec<(FilePath, Vec<u8>)>) -> (selector: FullHashSelector)
        requires
            forall|i: int|
                #![trigger files@[i]]
                0 <= i < files@.len() ==> files@[i].1@.len() <= HASH_LIMIT,
        ensures
            selector@ == duplicates(full_digests(files@)),
    {
        let mut hashed: Vec<(FilePath, Digest)> = Vec::new();
        let ghost all = files@;
        for file in it: files
            invariant
                it.seq() == all,
                forall|i: int|
                    #![trigger all[i]]
                    0 <= i < all.len() ==> all[i].1@.len() <= HASH_LIMIT,
                hashed@ == full_digests(all).take(it.index()),
        {
            let ghost f = file;
            let (path, data) = file;
            assert(all[it.index()] == f);
            let digest = Digest::of(data.as_slice());
            hashed.push((path, digest));
            assert(full_digests(all)[it.index()] == (f.0, digest));
            assert(full_digests(all).take(it.index() + 1) =~= full_digests(all).take(
                it.index(),
            ).push((f.0, digest)));
        }
        assert(hashed@ =~= full_digests(all));
        FullHashSelector::from_digests(hashed)
    }

    /// Lists the files: every digest in hexadecimal, with the paths that have it.
    pub fn entries(&self) -> (entries: Vec<(String, Vec<FilePath>)>)
        ensures
            exists|digests: Seq<Digest>| #[trigger] lists_groups(entries@, self@, digests),
    {
        let mut entries: Vec<(String, Vec<FilePath>)> = Vec::new();
        let walk = self.by_hash.iter();
        let ghost items = walk.remaining();
        let ghost digests = digests_of(items);
        for (key, paths) in it: walk
            invariant
                it.seq() == items,
                items == self.by_hash.iter().remaining(),
                digests == digests_of(items),
                entries@.len() == it.index(),
                forall|i: int|
                    #![trigger entries@[i]]
                    0 <= i < entries@.len() ==> entries@[i].0@ == hex(digests[i]@) && path_bytes(
                        entries@[i].1@,
                    ) == path_bytes(self@[digests[i]]),
        {
            let digest = Digest { first: key.0, second: key.1 };
            assert(items[it.index()] == (key, paths));
            assert(self.by_hash@.contains_key(*items[it.index()].0));
            entries.push((digest.to_hex(), copy_paths(paths)));
        }
        proof {
            lemma_digests_of(items, self.by_hash@);
            assert(lists_groups(entries@, self@, digests));
        }
        entries
    }
}

/// The digests of the pairs of a map.
spec fn digests_of(items: Seq<(&(u128, u128), &Vec<FilePath>)>) -> Seq<Digest> {
    items.map_values(
        |item: (&(u128, u128), &Vec<FilePath>)| Digest { first: item.0.0, second: item.0.1 },
    )
}

proof fn lemma_digests_of(
    items: Seq<(&(u128, u128), &Vec<FilePath>)>,
    map: Map<(u128, u128), Vec<FilePath>>,
)
    requires
        items.no_duplicates(),
        forall|i: int|
            #![trigger items[i]]
            0 <= i < items.len() ==> map.contains_key(*items[i].0) && map[*items[i].0]
                == *items[i].1,
        forall|k: (u128, u128)| #[trigger] map.contains_key(k) ==> items.contains((&k, &map[k])),
    ensures
        digests_of(items).no_duplicates(),
        digests_of(items).to_set() == by_digest(map).dom(),
{
    lemma_keys_of(items, map);
    let keys = keys_of(items);
    let digests = digests_of(items);
    assert forall|i: int, j: int|
        0 <= i < digests.len() && 0 <= j < digests.len() && i != j implies digests[i]
        != digests[j] by {
        assert(keys[i] != keys[j]);
    }
    assert forall|d: Digest| digests.to_set().contains(d) <==> by_digest(map).dom().contains(d) by {
        let k = (d.first, d.second);
        if digests.contains(d) {
            let i = choose|i: int| 0 <= i < digests.len() && digests[i] == d;
            assert(keys[i] == k);
            assert(keys.contains(k));
            assert(keys.to_set().contains(k));
        }
        if map.contains_key(k) {
            assert(keys.to_set().contains(k));
            let i = choose|i: int| 0 <= i < keys.len() && keys[i] == k;
            assert(digests[i] == d);
        }
    }
    assert(digests.to_set() =~= by_digest(map).dom());
}

/// How many bytes are read of every file before it is hashed as a whole.
pub const PARTIAL_SIZE: usize = 4096;

/// A task of the pipeline: the files of a size that are to be hashed.
pub type HashTask = (u64, Vec<FilePath>);

/// The hashing of buckets of files: first the start of every file of a bucket, then the whole of
/// the files whose starts agree.
pub struct HasherPipeline {
    /// What has been found, with the size of the files.
    pub results: Vec<(u64, FullHashSelector)>,
}

/// Whether there is one task for every size, with the files of that size, in the given order.
pub open spec fn lists_buckets(
    tasks: Seq<HashTask>,
    buckets: Map<u64, Vec<FilePath>>,
    sizes: Seq<u64>,
) -> bool {
    &&& sizes.no_duplicates()
    &&& sizes.to_set() == buckets.dom()
    &&& tasks.len() == sizes.len()
    &&& forall|i: int|
        #![trigger tasks[i]]
        0 <= i < tasks.len() ==> tasks[i].0 == sizes[i] && path_bytes(tasks[i].1@) == path_bytes(
            buckets[sizes[i]]@,
        )
}

/// Whether there is one task for every group, with its files and their size, in the given order.
pub open spec fn lists_group_tasks(
    tasks: Seq<HashTask>,
    size: u64,
    groups: Map<Digest, Seq<FilePath>>,
    digests: Seq<Digest>,
) -> bool {
    &&& names_groups(digests, groups)
    &&& tasks.len() == digests.len()
    &&& forall|i: int|
        #![trigger tasks[i]]
        0 <= i < tasks.len() ==> tasks[i].0 == size && path_bytes(tasks[i].1@) == path_bytes(
            groups[digests[i]],
        )
}

/// Begins to hash buckets of files. Gives the buckets of which the starts are to be hashed.
pub fn hasher_pipeline(buckets: &HashMap<u64, Vec<FilePath>>) -> (started: (
    HasherPipeline,
    Vec<HashTask>,
))
    ensures
        started.0.results@.len() == 0,
        exists|sizes: Seq<u64>| #[trigger] lists_buckets(started.1@, buckets@, sizes),
{
    let mut tasks: Vec<HashTask> = Vec::new();
    let walk = buckets.iter();
    let ghost items = walk.remaining();
    let ghost sizes = keys_of(items);
    for (size, paths) in it: walk
        invariant
            it.seq() == items,
            items == buckets.iter().remaining(),
            sizes == keys_of(items),
            tasks@.len() == it.index(),
            forall|i: int|
                #![trigger tasks@[i]]
                0 <= i < tasks@.len() ==> tasks@[i].0 == sizes[i] && path_bytes(tasks@[i].1@)
                    == path_bytes(buckets@[sizes[i]]@),
    {
        assert(items[it.index()] == (size, paths));
        assert(buckets@.contains_key(*items[it.index()].0));
        tasks.push((*size, copy_paths(paths)));
    }
    proof {
        lemma_keys_of(items, buckets@);
    }
    let started = (HasherPipeline { results: Vec::new() }, tasks);
    assert(lists_buckets(started.1@, buckets@, sizes));
    started
}

impl HasherPipeline {
    /// Goes on when the starts of the files of a size have been hashed. Gives the groups of files
    /// that are to be hashed as a whole.
    pub fn partial_done(&self, size: u64, selector: &FilePartialHashSelector) -> (tasks: Vec<
        HashTask,
    >)
        ensures
            exists|digests: Seq<Digest>| #[trigger]
                lists_group_tasks(tasks@, size, selector@, digests),
    {
        let mut tasks: Vec<HashTask> = Vec::new();
        let walk = selector.by_hash.iter();
        let ghost items = walk.remaining();
        let ghost digests = digests_of(items);
        for (key, paths) in it: walk
            invariant
                it.seq() == items,
                items == selector.by_hash.iter().remaining(),
                digests == digests_of(items),
                tasks@.len() == it.index(),
                forall|i: int|
                    #![trigger tasks@[i]]
                    0 <= i < tasks@.len() ==> tasks@[i].0 == size && path_bytes(tasks@[i].1@)
                        == path_bytes(selector@[digests[i]]),
        {
            assert(items[it.index()] == (key, paths));
            assert(selector.by_hash@.contains_key(*items[it.index()].0));
            assert(selector@[digests[it.index()]] == paths@);
            tasks.push((size, copy_paths(paths)));
        }
        proof {
            lemma_digests_of(items, selector.by_hash@);
            assert(lists_group_tasks(tasks@, size, selector@, digests));
        }
        tasks
    }

    /// Takes what was found in a group of files of a size.
    pub fn full_done(&mut self, size: u64, selector: FullHashSelector)
        ensures
            final(self).results@ == old(self).results@.push((size, selector)),
    {
        self.results.push((size, selector));
    }
}

/// What is shown while starts of files are hashed.
pub open spec fn hashing_progress(partial_left: usize, full_left: usize) -> Seq<char> {
    "\r"@ + count_column(partial_left) + " partial tasks left and "@ + count_column(full_left)
        + " full hashing tasks left"@
}

/// What is shown while starts of files are hashed.
pub fn hashing_progress_text(partial_left: usize, full_left: usize) -> (text: String)
    ensures
        text@ == hashing_progress(partial_left, full_left),
        text@ == "\r"@ + right_aligned(decimal(partial_left as nat), 9)
            + " partial tasks left and "@ + right_aligned(decimal(full_left as nat), 9)
            + " full hashing tasks left"@,
{
    let mut text = "\r".to_owned();
    text.append(count_text(partial_left).as_str());
    text.append(" partial tasks left and ");
    text.append(count_text(full_left).as_str());
    text.append(" full hashing tasks left");
    text
}

/// What is shown when all starts have been hashed.
pub open spec fn tasks_left(left: usize) -> Seq<char> {
    "\r"@ + count_column(left) + " tasks left"@
}

/// What is shown when all starts have been hashed.
pub fn tasks_left_text(left: usize) -> (text: String)
    ensures
        text@ == tasks_left(left),
        text@ == "\r"@ + right_aligned(decimal(left as nat), 9) + " tasks left"@,
{
    let mut text = "\r".to_owned();
    text.append(count_text(left).as_str());
    text.append(" tasks left");
    text
}

} // verus!
