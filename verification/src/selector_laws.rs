//! What holds of the selection of files in buckets.

use crate::digest::{content_digest, lemma_digest_bytes, Digest};
use crate::discovery_laws::{inode_run, inode_state};
use crate::file_discovery_actors::FileInfo;
use crate::file_selector::{
    by_digest, collected_buckets, duplicates, files_with, full_digests, has_digest, lists_buckets,
    lists_group_tasks, lists_groups, partial_digests, seen_in, start_of, HashTask,
};
use crate::path::FilePath;
use crate::path_order::{lemma_path_bytes_are_those_of_the_paths, path_bytes};
use crate::seqs::{lemma_filter_twice, lemma_kept_was_there, lemma_two_in_filter};
use crate::text::{hex, lemma_hex_injective};
use vstd::prelude::*;

verus! {

/// Whether a file is known and not empty.
pub open spec fn is_not_empty() -> spec_fn((FilePath, Option<FileInfo>)) -> bool {
    |f: (FilePath, Option<FileInfo>)| f.1 is Some && f.1->0.size > 0
}

/// Whether a file has a size.
pub open spec fn has_size(size: u64) -> spec_fn((FilePath, FileInfo)) -> bool {
    |f: (FilePath, FileInfo)| f.1.size == size
}

/// The files of a size, in the order in which they came.
pub open spec fn paths_of_size(files: Seq<(FilePath, FileInfo)>, size: u64) -> Seq<FilePath> {
    files.filter(has_size(size)).map_values(|f: (FilePath, FileInfo)| f.0)
}

/// The bucket of a size holds the files of that size in the order in which they came, every file
/// once, whatever the number of its names; empty files are in no bucket, and there is no bucket
/// without a file.
pub proof fn lemma_buckets_hold_every_file_once(
    files: Seq<(FilePath, Option<FileInfo>)>,
    size: u64,
)
    ensures
        ({
            let buckets = collected_buckets(Map::empty(), files);
            let paths = paths_of_size(inode_run(files.filter(is_not_empty())), size);
            &&& buckets.contains_key(size) <==> paths.len() > 0
            &&& buckets.contains_key(size) ==> buckets[size] == paths
        }),
        !collected_buckets(Map::empty(), files).contains_key(0),
{
    lemma_buckets(files, size);
    lemma_buckets(files, 0);
}

proof fn lemma_buckets(files: Seq<(FilePath, Option<FileInfo>)>, size: u64)
    ensures
        seen_in(files) == inode_state(files.filter(is_not_empty())),
        ({
            let buckets = collected_buckets(Map::empty(), files);
            let paths = paths_of_size(inode_run(files.filter(is_not_empty())), size);
            &&& buckets.contains_key(size) <==> paths.len() > 0
            &&& buckets.contains_key(size) ==> buckets[size] == paths
        }),
        !collected_buckets(Map::empty(), files).contains_key(0),
    decreases files.len(),
{
    let chosen = files.filter(is_not_empty());
    if files.len() == 0 {
        assert(chosen =~= seq![]);
        assert(inode_run(chosen).filter(has_size(size)) =~= seq![]);
    } else {
        let front = files.drop_last();
        let last = files.last();
        lemma_buckets(front, size);
        assert(files =~= front.push(last));
        front.lemma_filter_push(last, is_not_empty());
        let before = front.filter(is_not_empty());
        if is_not_empty()(last) {
            assert(before.push(last).drop_last() =~= before);
            let info = last.1->0;
            let run = inode_run(before);
            if !seen_in(front).contains((info.dev, info.ino)) {
                assert(inode_run(chosen) == run.push((last.0, info)));
                run.lemma_filter_push((last.0, info), has_size(size));
                if info.size == size {
                    assert(paths_of_size(inode_run(chosen), size) =~= paths_of_size(run, size).push(
                        last.0,
                    ));
                    if paths_of_size(run, size).len() == 0 {
                        assert(paths_of_size(inode_run(chosen), size) =~= seq![last.0]);
                    }
                }
            } else {
                assert(inode_state(chosen) =~= inode_state(before));
            }
        }
    }
}

/// Two files with the same digest end up in one group, with all other files that have it.
pub proof fn lemma_equal_digests_share_a_group(
    files: Seq<(FilePath, Digest)>,
    i: int,
    j: int,
)
    requires
        0 <= i < j < files.len(),
        files[i].1 == files[j].1,
    ensures
        duplicates(files).contains_key(files[i].1),
        duplicates(files)[files[i].1].contains(files[i].0),
        duplicates(files)[files[i].1].contains(files[j].0),
        duplicates(files)[files[i].1] == files_with(files, files[i].1),
{
    let d = files[i].1;
    let chosen = files.filter(has_digest(d));
    lemma_two_in_filter(files, has_digest(d), i, j);
    files.lemma_filter_contains(has_digest(d), i);
    files.lemma_filter_contains(has_digest(d), j);
    let a = choose|a: int| 0 <= a < chosen.len() && chosen[a] == files[i];
    let b = choose|b: int| 0 <= b < chosen.len() && chosen[b] == files[j];
    assert(files_with(files, d)[a] == files[i].0);
    assert(files_with(files, d)[b] == files[j].0);
}

/// Paths with the digests that `digest` gives them.
pub open spec fn with_digests(
    paths: Seq<FilePath>,
    digest: spec_fn(FilePath) -> Digest,
) -> Seq<(FilePath, Digest)> {
    paths.map_values(|p: FilePath| (p, digest(p)))
}

/// Whether a path has the digest `d`.
pub open spec fn path_has(digest: spec_fn(FilePath) -> Digest, d: Digest) -> spec_fn(
    FilePath,
) -> bool {
    |p: FilePath| digest(p) == d
}

proof fn lemma_files_with_digest(
    paths: Seq<FilePath>,
    digest: spec_fn(FilePath) -> Digest,
    d: Digest,
)
    ensures
        files_with(with_digests(paths, digest), d) == paths.filter(path_has(digest, d)),
    decreases paths.len(),
{
    let files = with_digests(paths, digest);
    if paths.len() == 0 {
        assert(files.filter(has_digest(d)) =~= seq![]);
        assert(files_with(files, d) =~= paths.filter(path_has(digest, d)));
    } else {
        let front = paths.drop_last();
        let last = paths.last();
        lemma_files_with_digest(front, digest, d);
        assert(paths =~= front.push(last));
        assert(files =~= with_digests(front, digest).push((last, digest(last))));
        front.lemma_filter_push(last, path_has(digest, d));
        with_digests(front, digest).lemma_filter_push((last, digest(last)), has_digest(d));
        if digest(last) == d {
            assert(files_with(files, d) =~= files_with(with_digests(front, digest), d).push(last));
        }
    }
}

/// The digest of the first `partial_size` bytes of every file.
pub open spec fn start_digest(
    content: spec_fn(FilePath) -> Seq<u8>,
    partial_size: usize,
) -> spec_fn(FilePath) -> Digest {
    |p: FilePath| content_digest(start_of(content(p), partial_size))
}

/// The digest of every file.
pub open spec fn whole_digest(content: spec_fn(FilePath) -> Seq<u8>) -> spec_fn(
    FilePath,
) -> Digest {
    |p: FilePath| content_digest(content(p))
}

/// Two files of a bucket with the same content are found: their starts put them into one group,
/// and the digest of the whole puts them into one group of that. `content` gives the content of
/// every file.
pub proof fn lemma_equal_files_are_found(
    paths: Seq<FilePath>,
    content: spec_fn(FilePath) -> Seq<u8>,
    partial_size: usize,
    i: int,
    j: int,
)
    requires
        0 <= i < j < paths.len(),
        content(paths[i]) == content(paths[j]),
    ensures
        ({
            let start = start_digest(content, partial_size);
            let whole = whole_digest(content);
            let partial = duplicates(with_digests(paths, start));
            let group = partial[start(paths[i])];
            let full = duplicates(with_digests(group, whole));
            &&& partial.contains_key(start(paths[i]))
            &&& full.contains_key(whole(paths[i]))
            &&& full[whole(paths[i])].contains(paths[i])
            &&& full[whole(paths[i])].contains(paths[j])
        }),
{
    let start = start_digest(content, partial_size);
    let whole = whole_digest(content);
    let d = start(paths[i]);
    let e = whole(paths[i]);
    let both = |p: FilePath| content(p) == content(paths[i]);
    lemma_files_with_digest(paths, start, d);
    lemma_two_in_filter(paths, path_has(start, d), i, j);
    let group = paths.filter(path_has(start, d));
    assert(duplicates(with_digests(paths, start))[d] == group);
    lemma_filter_twice(paths, path_has(start, d), both);
    lemma_two_in_filter(paths, both, i, j);
    let twins = paths.filter(both);
    assert(group.filter(both) == twins);
    lemma_files_with_digest(group, whole, e);
    let same = group.filter(path_has(whole, e));
    assert forall|k: int| #![trigger group[k]] 0 <= k < group.len() && both(group[k]) implies path_has(
        whole,
        e,
    )(group[k]) by {
    }
    lemma_filter_twice(group, path_has(whole, e), both);
    assert(same.filter(both) == twins);
    same.lemma_filter_len(both);
    assert(same.len() >= 2);
    paths.lemma_filter_contains(both, i);
    paths.lemma_filter_contains(both, j);
    let a = choose|a: int| 0 <= a < twins.len() && twins[a] == paths[i];
    let b = choose|b: int| 0 <= b < twins.len() && twins[b] == paths[j];
    lemma_kept_was_there(same, both, a);
    lemma_kept_was_there(same, both, b);
}

/// Files that come to buckets which hold files already are put behind these: the bucket of a size
/// holds what it held, and then the files of that size in the order in which they came, every file
/// once, whatever the number of its names. Empty files change no bucket.
pub proof fn lemma_files_are_added_to_buckets(
    buckets: Map<u64, Seq<FilePath>>,
    files: Seq<(FilePath, Option<FileInfo>)>,
    size: u64,
)
    ensures
        ({
            let result = collected_buckets(buckets, files);
            let held = if buckets.contains_key(size) {
                buckets[size]
            } else {
                seq![]
            };
            let paths = paths_of_size(inode_run(files.filter(is_not_empty())), size);
            &&& result.contains_key(size) <==> buckets.contains_key(size) || paths.len() > 0
            &&& result.contains_key(size) ==> result[size] == held + paths
        }),
    decreases files.len(),
{
    let held = if buckets.contains_key(size) {
        buckets[size]
    } else {
        seq![]
    };
    let chosen = files.filter(is_not_empty());
    let paths = paths_of_size(inode_run(chosen), size);
    if files.len() == 0 {
        assert(chosen =~= seq![]);
        assert(inode_run(chosen).filter(has_size(size)) =~= seq![]);
        assert(held + paths =~= held);
    } else {
        let front = files.drop_last();
        let last = files.last();
        lemma_files_are_added_to_buckets(buckets, front, size);
        lemma_buckets(front, size);
        assert(files =~= front.push(last));
        front.lemma_filter_push(last, is_not_empty());
        let before = front.filter(is_not_empty());
        if is_not_empty()(last) {
            assert(before.push(last).drop_last() =~= before);
            let info = last.1->0;
            let run = inode_run(before);
            if !seen_in(front).contains((info.dev, info.ino)) {
                assert(inode_run(chosen) == run.push((last.0, info)));
                run.lemma_filter_push((last.0, info), has_size(size));
                if info.size == size {
                    assert(paths =~= paths_of_size(run, size).push(last.0));
                    assert(held + paths =~= (held + paths_of_size(run, size)).push(last.0));
                    if !collected_buckets(buckets, front).contains_key(size) {
                        assert(held + paths =~= seq![last.0]);
                    }
                }
            }
        }
    }
}

/// A digest has a group exactly if more than one file has it, and its group is all files that have
/// it, in the order in which they came.
pub proof fn lemma_groups_are_the_shared_digests(files: Seq<(FilePath, Digest)>, digest: Digest)
    ensures
        ({
            let same = files.filter(|f: (FilePath, Digest)| f.1 == digest);
            let groups = duplicates(files);
            &&& groups.contains_key(digest) <==> same.len() > 1
            &&& groups.contains_key(digest) ==> {
                &&& groups[digest].len() == same.len()
                &&& forall|i: int|
                    0 <= i < same.len() ==> #[trigger] groups[digest][i] == same[i].0
            }
        }),
{
    assert(has_digest(digest) =~= (|f: (FilePath, Digest)| f.1 == digest));
}

/// What is held under a digest are the files that stand under it.
pub proof fn lemma_groups_are_those_of_the_map(
    map: Map<(u128, u128), Vec<FilePath>>,
    digest: Digest,
)
    ensures
        by_digest(map).contains_key(digest) <==> map.contains_key((digest.first, digest.second)),
        by_digest(map).contains_key(digest) ==> by_digest(map)[digest] == map[(
            digest.first,
            digest.second,
        )]@,
{
}

/// The digest of every file is that of its first bytes, as many as are asked for or as there are,
/// and the paths stay as they are.
pub proof fn lemma_partial_digests_are_those_of_the_starts(
    files: Seq<(FilePath, Vec<u8>)>,
    partial_size: usize,
)
    ensures
        partial_digests(files, partial_size).len() == files.len(),
        forall|i: int|
            0 <= i < files.len() ==> {
                let data = files[i].1@;
                let hashed = #[trigger] partial_digests(files, partial_size)[i];
                &&& hashed.0 == files[i].0
                &&& data.len() <= partial_size ==> hashed.1 == content_digest(data)
                &&& data.len() > partial_size ==> hashed.1 == content_digest(
                    data.subrange(0, partial_size as int),
                )
            },
{
}

/// The digest of every file is that of all of it, and the paths stay as they are.
pub proof fn lemma_full_digests_are_those_of_the_files(files: Seq<(FilePath, Vec<u8>)>)
    ensures
        full_digests(files).len() == files.len(),
        forall|i: int|
            0 <= i < files.len() ==> {
                let hashed = #[trigger] full_digests(files)[i];
                hashed.0 == files[i].0 && hashed.1 == content_digest(files[i].1@)
            },
{
}

/// A list of groups has one entry for every group, under its digest in hexadecimal, with all its
/// paths in their order and byte for byte, and no other entry. Gives the place of the entry of a
/// digest.
pub proof fn lemma_groups_are_listed_in_full(
    entries: Seq<(String, Vec<FilePath>)>,
    groups: Map<Digest, Seq<FilePath>>,
    digests: Seq<Digest>,
    digest: Digest,
) -> (at: int)
    requires
        lists_groups(entries, groups, digests),
        groups.contains_key(digest),
    ensures
        entries.len() == groups.dom().len(),
        0 <= at < entries.len(),
        entries[at].0@ == hex(digest@),
        entries[at].1@.len() == groups[digest].len(),
        forall|k: int|
            0 <= k < groups[digest].len() ==> (#[trigger] entries[at].1@[k]).bytes@
                == groups[digest][k].bytes@,
        forall|i: int|
            0 <= i < entries.len() && i != at ==> (#[trigger] entries[i]).0@ != entries[at].0@,
{
    digests.unique_seq_to_set();
    assert(digests.to_set().contains(digest));
    let at = choose|at: int| 0 <= at < digests.len() && digests[at] == digest;
    assert(entries[at].0@ == hex(digests[at]@));
    assert(path_bytes(entries[at].1@) == path_bytes(groups[digest]));
    lemma_same_bytes(entries[at].1@, groups[digest]);
    assert forall|i: int| 0 <= i < entries.len() && i != at implies (#[trigger] entries[i]).0@
        != entries[at].0@ by {
        lemma_hex_injective(digests[i]@, digest@);
        lemma_digest_bytes(digests[i], digest@);
        lemma_digest_bytes(digest, digest@);
    }
    at
}

/// Paths with the same bytes are as many, and each has the bytes of the one in its place.
proof fn lemma_same_bytes(a: Seq<FilePath>, b: Seq<FilePath>)
    requires
        path_bytes(a) == path_bytes(b),
    ensures
        a.len() == b.len(),
        forall|k: int| 0 <= k < a.len() ==> (#[trigger] a[k]).bytes@ == b[k].bytes@,
{
    lemma_path_bytes_are_those_of_the_paths(a);
    lemma_path_bytes_are_those_of_the_paths(b);
    assert forall|k: int| 0 <= k < a.len() implies (#[trigger] a[k]).bytes@ == b[k].bytes@ by {
        assert(path_bytes(a)[k] == path_bytes(b)[k]);
    }
}

/// The starts are hashed in one task for every size, with all files of that size in their order
/// and byte for byte, and in no other task. Gives the place of the task of a size.
pub proof fn lemma_every_bucket_is_hashed(
    tasks: Seq<HashTask>,
    buckets: Map<u64, Vec<FilePath>>,
    sizes: Seq<u64>,
    size: u64,
) -> (at: int)
    requires
        lists_buckets(tasks, buckets, sizes),
        buckets.contains_key(size),
    ensures
        tasks.len() == buckets.dom().len(),
        0 <= at < tasks.len(),
        tasks[at].0 == size,
        tasks[at].1@.len() == buckets[size]@.len(),
        forall|k: int|
            0 <= k < buckets[size]@.len() ==> (#[trigger] tasks[at].1@[k]).bytes@
                == buckets[size]@[k].bytes@,
        forall|i: int| 0 <= i < tasks.len() && i != at ==> (#[trigger] tasks[i]).0 != size,
        forall|i: int| 0 <= i < tasks.len() ==> buckets.contains_key((#[trigger] tasks[i]).0),
{
    sizes.unique_seq_to_set();
    assert(sizes.to_set().contains(size));
    let at = choose|at: int| 0 <= at < sizes.len() && sizes[at] == size;
    assert(tasks[at].0 == sizes[at]);
    lemma_same_bytes(tasks[at].1@, buckets[size]@);
    assert forall|i: int| 0 <= i < tasks.len() implies buckets.contains_key(
        (#[trigger] tasks[i]).0,
    ) by {
        assert(sizes.to_set().contains(sizes[i]));
    }
    at
}

/// Whole files are hashed in one task for every group, with the size and all files of the group in
/// their order and byte for byte, and in no other task. Gives the place of the task of a digest.
pub proof fn lemma_every_group_is_hashed(
    tasks: Seq<HashTask>,
    size: u64,
    groups: Map<Digest, Seq<FilePath>>,
    digests: Seq<Digest>,
    digest: Digest,
) -> (at: int)
    requires
        lists_group_tasks(tasks, size, groups, digests),
        groups.contains_key(digest),
    ensures
        tasks.len() == groups.dom().len(),
        forall|i: int| 0 <= i < tasks.len() ==> (#[trigger] tasks[i]).0 == size,
        0 <= at < tasks.len(),
        digests[at] == digest,
        tasks[at].1@.len() == groups[digest].len(),
        forall|k: int|
            0 <= k < groups[digest].len() ==> (#[trigger] tasks[at].1@[k]).bytes@
                == groups[digest][k].bytes@,
{
    digests.unique_seq_to_set();
    assert(digests.to_set().contains(digest));
    let at = choose|at: int| 0 <= at < digests.len() && digests[at] == digest;
    assert(tasks[at].0 == size);
    lemma_same_bytes(tasks[at].1@, groups[digest]);
    at
}

} // verus!
