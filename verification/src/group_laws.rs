//! What holds of the hashing of buckets of files from its beginning to its end: every group of
//! equal files is found once, and nothing else.

use crate::digest::{content_digest, Digest};
use crate::file_selector::{
    duplicates, files_with, has_digest, lists_group_tasks, start_of, FilePartialHashSelector,
    FullHashSelector, HashTask,
};
use crate::path::FilePath;
use crate::path_order::path_bytes;
use crate::search_laws::Contents;
use crate::seqs::{
    lemma_came_from, lemma_filter_of_same_members, lemma_filter_twice, lemma_kept_was_there,
    same_members,
};
use vstd::prelude::*;

verus! {

/// The digest of the first `partial_size` bytes of the file under every path.
pub open spec fn start_digests(content: Contents, partial_size: usize) -> spec_fn(Seq<u8>) -> Digest {
    |path: Seq<u8>| content_digest(start_of(content(path), partial_size))
}

/// The digest of the file under every path.
pub open spec fn whole_digests(content: Contents) -> spec_fn(Seq<u8>) -> Digest {
    |path: Seq<u8>| content_digest(content(path))
}

/// Whether the file under a path has a digest.
pub open spec fn gives(digest: spec_fn(Seq<u8>) -> Digest, d: Digest) -> spec_fn(Seq<u8>) -> bool {
    |path: Seq<u8>| digest(path) == d
}

/// Whether groups are those of some paths by digest: there is one for every digest that more than
/// one of them has, with all that have it.
pub open spec fn groups_paths(
    groups: Map<Digest, Seq<FilePath>>,
    paths: Seq<Seq<u8>>,
    digest: spec_fn(Seq<u8>) -> Digest,
) -> bool {
    forall|d: Digest|
        {
            &&& #[trigger] groups.contains_key(d) <==> paths.filter(gives(digest, d)).len() > 1
            &&& groups.contains_key(d) ==> same_members(
                path_bytes(groups[d]),
                paths.filter(gives(digest, d)),
            )
        }
}

/// The paths of files with digests.
pub open spec fn paths_of(files: Seq<(FilePath, Digest)>) -> Seq<FilePath> {
    files.map_values(|f: (FilePath, Digest)| f.0)
}

proof fn lemma_files_with(
    files: Seq<(FilePath, Digest)>,
    digest: spec_fn(Seq<u8>) -> Digest,
    d: Digest,
)
    requires
        forall|i: int| 0 <= i < files.len() ==> (#[trigger] files[i]).1 == digest(files[i].0@),
    ensures
        path_bytes(files_with(files, d)) == path_bytes(paths_of(files)).filter(gives(digest, d)),
    decreases files.len(),
{
    let p = gives(digest, d);
    let bytes = path_bytes(paths_of(files));
    if files.len() == 0 {
        assert(files.filter(has_digest(d)) =~= seq![]);
        assert(bytes.filter(p) =~= seq![]);
        assert(path_bytes(files_with(files, d)) =~= bytes.filter(p));
    } else {
        let front = files.drop_last();
        let last = files.last();
        assert forall|i: int| 0 <= i < front.len() implies (#[trigger] front[i]).1 == digest(
            front[i].0@,
        ) by {
            assert(front[i] == files[i]);
        }
        lemma_files_with(front, digest, d);
        let before = path_bytes(paths_of(front));
        assert(files[files.len() - 1] == last);
        assert(files =~= front.push(last));
        assert(bytes =~= before.push(last.0@));
        front.lemma_filter_push(last, has_digest(d));
        before.lemma_filter_push(last.0@, p);
        if last.1 == d {
            assert(path_bytes(files_with(files, d)) =~= path_bytes(files_with(front, d)).push(
                last.0@,
            ));
        }
    }
}

/// A selector groups the paths of a bucket when every file of it has come with its digest, in
/// whatever order.
pub proof fn lemma_selector_groups_its_bucket(
    files: Seq<(FilePath, Digest)>,
    paths: Seq<Seq<u8>>,
    digest: spec_fn(Seq<u8>) -> Digest,
)
    requires
        same_members(path_bytes(paths_of(files)), paths),
        forall|i: int| 0 <= i < files.len() ==> (#[trigger] files[i]).1 == digest(files[i].0@),
    ensures
        groups_paths(duplicates(files), paths, digest),
{
    let groups = duplicates(files);
    assert forall|d: Digest|
        {
            &&& #[trigger] groups.contains_key(d) <==> paths.filter(gives(digest, d)).len() > 1
            &&& groups.contains_key(d) ==> same_members(
                path_bytes(groups[d]),
                paths.filter(gives(digest, d)),
            )
        } by {
        lemma_files_with(files, digest, d);
        lemma_filter_of_same_members(path_bytes(paths_of(files)), paths, gives(digest, d));
        assert(path_bytes(files_with(files, d)).len() == files_with(files, d).len());
    }
}

/// Whether no two of the files under some paths have the same digest and different contents.
pub open spec fn no_collision(content: Contents, paths: Seq<Seq<u8>>) -> bool {
    forall|i: int, j: int|
        0 <= i < paths.len() && 0 <= j < paths.len() && content_digest(
            content(#[trigger] paths[i]),
        ) == content_digest(content(#[trigger] paths[j])) ==> content(paths[i]) == content(paths[j])
}

/// Of the groups by start of a bucket, one holds the files with a digest, if there are any: that of
/// their start, with all of them.
proof fn lemma_one_start(
    content: Contents,
    partial_size: usize,
    bucket: Seq<Seq<u8>>,
    group: Seq<Seq<u8>>,
    e: Digest,
    d: Digest,
)
    requires
        same_members(group, bucket.filter(gives(start_digests(content, partial_size), e))),
        no_collision(content, bucket),
    ensures
        ({
            let same = bucket.filter(gives(whole_digests(content), d));
            let inner = group.filter(gives(whole_digests(content), d));
            &&& inner.len() > 1 <==> same.len() > 1 && e == start_digests(content, partial_size)(
                same[0],
            )
            &&& inner.len() > 1 ==> same_members(inner, same)
        }),
{
    let start = start_digests(content, partial_size);
    let by_start = gives(start, e);
    let by_whole = gives(whole_digests(content), d);
    let same = bucket.filter(by_whole);
    let chosen = bucket.filter(by_start);
    lemma_filter_of_same_members(group, chosen, by_whole);
    if same.len() > 0 && e == start(same[0]) {
        assert forall|i: int| #![trigger bucket[i]] 0 <= i < bucket.len() && by_whole(
            bucket[i],
        ) implies by_start(bucket[i]) by {
            lemma_kept_was_there(bucket, by_whole, 0);
            let n = choose|n: int| 0 <= n < bucket.len() && bucket[n] == same[0];
            assert(content(bucket[i]) == content(bucket[n]));
        }
        lemma_filter_twice(bucket, by_start, by_whole);
    } else {
        let both = chosen.filter(by_whole);
        if both.len() > 0 {
            lemma_kept_was_there(chosen, by_whole, 0);
            let m = choose|m: int| 0 <= m < chosen.len() && chosen[m] == both[0];
            lemma_kept_was_there(bucket, by_start, m);
            let i = choose|i: int| 0 <= i < bucket.len() && bucket[i] == chosen[m];
            assert(by_whole(bucket[i]) && by_start(bucket[i]));
            bucket.lemma_filter_contains(by_whole, i);
            lemma_kept_was_there(bucket, by_whole, 0);
            let n = choose|n: int| 0 <= n < bucket.len() && bucket[n] == same[0];
            assert(content(bucket[i]) == content(bucket[n]));
        }
    }
}

/// The end of the task that hashes the starts of the files of a size: what was selected, and the
/// tasks that it leads to.
pub struct StartsHashed {
    pub size: u64,
    pub selector: FilePartialHashSelector,
    pub tasks: Seq<HashTask>,
}

/// The tasks that hash files as a whole, of all sizes.
pub open spec fn all_tasks(done: Seq<StartsHashed>) -> Seq<HashTask>
    decreases done.len(),
{
    if done.len() == 0 {
        seq![]
    } else {
        all_tasks(done.drop_last()) + done.last().tasks
    }
}

/// The hashing of buckets of files, from its beginning to its end.
pub struct PipelineRun {
    /// The content of every file, which does not change.
    pub content: Contents,
    pub partial_size: usize,
    pub buckets: Map<u64, Vec<FilePath>>,
    /// The tasks that hash starts, in the order in which they were done.
    pub done: Seq<StartsHashed>,
    /// What was found in every group of files.
    pub found: Seq<FullHashSelector>,
    /// What is given at the end.
    pub results: Seq<(u64, FullHashSelector)>,
}

impl PipelineRun {
    /// The paths of the files of a size.
    pub open spec fn bucket(self, size: u64) -> Seq<Seq<u8>> {
        path_bytes(self.buckets[size]@)
    }

    /// The digest of the start of every file.
    pub open spec fn start(self) -> spec_fn(Seq<u8>) -> Digest {
        start_digests(self.content, self.partial_size)
    }

    /// The digest of every file.
    pub open spec fn whole(self) -> spec_fn(Seq<u8>) -> Digest {
        whole_digests(self.content)
    }

    /// Whether the tasks of a size have come of hashing the starts of its files.
    pub open spec fn is_done(self, hashed: StartsHashed) -> bool {
        &&& self.buckets.contains_key(hashed.size)
        &&& groups_paths(hashed.selector@, self.bucket(hashed.size), self.start())
        &&& exists|digests: Seq<Digest>| #[trigger]
            lists_group_tasks(hashed.tasks, hashed.size, hashed.selector@, digests)
    }

    /// Whether all files could be read, every bucket was hashed once, every group of files was
    /// hashed, and all that was found is given, in whatever order.
    pub open spec fn goes_well(self) -> bool {
        let tasks = all_tasks(self.done);
        &&& forall|i: int| 0 <= i < self.done.len() ==> self.is_done(#[trigger] self.done[i])
        &&& forall|i: int, j: int|
            0 <= i < j < self.done.len() ==> (#[trigger] self.done[i]).size != (
            #[trigger] self.done[j]).size
        &&& forall|size: u64| #[trigger]
            self.buckets.contains_key(size) ==> exists|i: int|
                0 <= i < self.done.len() && (#[trigger] self.done[i]).size == size
        &&& self.found.len() == tasks.len()
        &&& forall|i: int|
            0 <= i < tasks.len() ==> groups_paths(
                (#[trigger] self.found[i])@,
                path_bytes(tasks[i].1@),
                self.whole(),
            )
        &&& same_members(self.results, self.given())
    }

    /// What was found in every group of files, with the size of the files.
    pub open spec fn given(self) -> Seq<(u64, FullHashSelector)> {
        Seq::new(self.found.len(), |i: int| (all_tasks(self.done)[i].0, self.found[i]))
    }

    /// Whether labels name the groups of the first `count` sizes that are done, each once, in the
    /// order of their tasks.
    spec fn labelled(self, count: int, labels: Seq<(u64, Digest)>) -> bool {
        let tasks = all_tasks(self.done.take(count));
        &&& labels.len() == tasks.len()
        &&& labels.no_duplicates()
        &&& forall|i: int|
            0 <= i < labels.len() ==> {
                let label = #[trigger] labels[i];
                &&& tasks[i].0 == label.0
                &&& same_members(
                    path_bytes(tasks[i].1@),
                    self.bucket(label.0).filter(gives(self.start(), label.1)),
                )
            }
        &&& forall|size: u64, e: Digest|
            #![trigger labels.contains((size, e))]
            labels.contains((size, e)) <==> self.is_early(count, size) && self.bucket(size).filter(
                gives(self.start(), e),
            ).len() > 1
    }

    /// Whether a size is one of the first `count` that are done.
    spec fn is_early(self, count: int, size: u64) -> bool {
        exists|i: int| 0 <= i < count && (#[trigger] self.done[i]).size == size
    }

    proof fn lemma_labels(self, count: int) -> (labels: Seq<(u64, Digest)>)
        requires
            self.goes_well(),
            0 <= count <= self.done.len(),
        ensures
            self.labelled(count, labels),
        decreases count,
    {
        if count == 0 {
            let labels = Seq::<(u64, Digest)>::empty();
            assert(self.done.take(0) =~= seq![]);
            labels
        } else {
            let before = self.lemma_labels(count - 1);
            let hashed = self.done[count - 1];
            let size = hashed.size;
            assert(self.is_done(hashed));
            let digests = choose|digests: Seq<Digest>| #[trigger]
                lists_group_tasks(hashed.tasks, size, hashed.selector@, digests);
            let new = Seq::new(digests.len(), |i: int| (size, digests[i]));
            let labels = before + new;
            let earlier = all_tasks(self.done.take(count - 1));
            let tasks = all_tasks(self.done.take(count));
            assert(self.done.take(count).drop_last() =~= self.done.take(count - 1));
            assert(tasks == earlier + hashed.tasks);
            assert(!self.is_early(count - 1, size));
            assert forall|i: int, j: int|
                0 <= i < labels.len() && 0 <= j < labels.len() && i != j implies labels[i]
                != labels[j] by {
                let n = before.len() as int;
                if i < n {
                    assert(before.contains((before[i].0, before[i].1)));
                    assert(self.is_early(count - 1, before[i].0));
                }
                if j < n {
                    assert(before.contains((before[j].0, before[j].1)));
                    assert(self.is_early(count - 1, before[j].0));
                }
                if i >= n && j >= n {
                    assert(digests[i - n] != digests[j - n]);
                }
            }
            assert forall|i: int| 0 <= i < labels.len() implies {
                let label = #[trigger] labels[i];
                &&& tasks[i].0 == label.0
                &&& same_members(
                    path_bytes(tasks[i].1@),
                    self.bucket(label.0).filter(gives(self.start(), label.1)),
                )
            } by {
                let n = before.len() as int;
                if i < n {
                    assert(labels[i] == before[i]);
                    assert(tasks[i] == earlier[i]);
                } else {
                    let d = digests[i - n];
                    assert(tasks[i] == hashed.tasks[i - n]);
                    assert(digests.contains(d));
                    assert(digests.to_set().contains(d));
                    assert(hashed.selector@.contains_key(d));
                }
            }
            assert forall|s: u64, e: Digest|
                #![trigger labels.contains((s, e))]
                labels.contains((s, e)) <==> self.is_early(count, s) && self.bucket(s).filter(
                    gives(self.start(), e),
                ).len() > 1 by {
                lemma_contains_of_both(before, new, (s, e));
                assert(before.contains((s, e)) <==> self.is_early(count - 1, s) && self.bucket(
                    s,
                ).filter(gives(self.start(), e)).len() > 1);
                assert(self.is_early(count, s) <==> self.is_early(count - 1, s) || s == size) by {
                    if s == size {
                        assert(self.done[count - 1].size == s);
                    }
                }
                assert(hashed.selector@.contains_key(e) <==> self.bucket(size).filter(
                    gives(self.start(), e),
                ).len() > 1);
                assert(new.contains((s, e)) <==> s == size && hashed.selector@.contains_key(e)) by {
                    if new.contains((s, e)) {
                        let i = choose|i: int| 0 <= i < new.len() && new[i] == (s, e);
                        assert(digests.contains(digests[i]));
                        assert(digests.to_set().contains(e));
                    }
                    if s == size && hashed.selector@.contains_key(e) {
                        assert(digests.to_set().contains(e));
                        let i = choose|i: int| 0 <= i < digests.len() && digests[i] == e;
                        assert(new[i] == (s, e));
                    }
                }
            }
            labels
        }
    }
}

proof fn lemma_contains_of_both<T>(a: Seq<T>, b: Seq<T>, x: T)
    ensures
        (a + b).contains(x) <==> a.contains(x) || b.contains(x),
{
    if a.contains(x) {
        let i = choose|i: int| 0 <= i < a.len() && a[i] == x;
        assert((a + b)[i] == x);
    }
    if b.contains(x) {
        let i = choose|i: int| 0 <= i < b.len() && b[i] == x;
        assert((a + b)[a.len() + i] == x);
    }
}

/// A filter keeps nothing where nothing is of its kind.
proof fn lemma_none_kept<T>(s: Seq<T>, p: spec_fn(T) -> bool)
    requires
        forall|i: int| 0 <= i < s.len() ==> !p(#[trigger] s[i]),
    ensures
        s.filter(p).len() == 0,
{
    if s.filter(p).len() > 0 {
        lemma_kept_was_there(s, p, 0);
        let i = choose|i: int| 0 <= i < s.len() && s[i] == s.filter(p)[0];
        assert(!p(s[i]));
    }
}

/// A filter keeps one where only one is of its kind.
proof fn lemma_one_kept<T>(s: Seq<T>, p: spec_fn(T) -> bool, i: int)
    requires
        0 <= i < s.len(),
        p(s[i]),
        forall|j: int| 0 <= j < s.len() && j != i ==> !p(#[trigger] s[j]),
    ensures
        s.filter(p) == seq![s[i]],
{
    let front = s.take(i);
    let rest = s.skip(i + 1);
    assert(forall|j: int| 0 <= j < front.len() ==> #[trigger] front[j] == s[j]);
    assert(forall|j: int| 0 <= j < rest.len() ==> #[trigger] rest[j] == s[i + 1 + j]);
    lemma_none_kept(front, p);
    lemma_none_kept(rest, p);
    front.lemma_filter_push(s[i], p);
    assert(s =~= front.push(s[i]) + rest);
    Seq::filter_distributes_over_add(front.push(s[i]), rest, p);
    assert(s.filter(p) =~= seq![s[i]]);
}

/// Whether what was found in a group of files of a size holds a digest.
pub open spec fn has_result(size: u64, d: Digest) -> spec_fn((u64, FullHashSelector)) -> bool {
    |r: (u64, FullHashSelector)| r.0 == size && r.1@.contains_key(d)
}

/// Every group of equal files is given once, and nothing else: where no two files of a size have
/// the same digest and different contents, a digest is in exactly one result of that size if more
/// than one file has it, with all files that have it, and in none otherwise.
pub proof fn lemma_every_group_is_given_once(run: PipelineRun, size: u64, d: Digest)
    requires
        run.goes_well(),
        run.buckets.contains_key(size) ==> no_collision(run.content, run.bucket(size)),
    ensures
        ({
            let same = run.bucket(size).filter(gives(run.whole(), d));
            let given = run.results.filter(has_result(size, d));
            if run.buckets.contains_key(size) && same.len() > 1 {
                given.len() == 1 && same_members(path_bytes(given[0].1@[d]), same)
            } else {
                given.len() == 0
            }
        }),
{
    let tasks = all_tasks(run.done);
    let count = run.done.len() as int;
    let labels = run.lemma_labels(count);
    assert(run.done.take(count) =~= run.done);
    let bucket = run.bucket(size);
    let same = bucket.filter(gives(run.whole(), d));
    let p = has_result(size, d);
    let given = run.given();
    lemma_filter_of_same_members(run.results, given, p);
    assert(run.is_early(count, size) ==> run.buckets.contains_key(size)) by {
        if run.is_early(count, size) {
            let i = choose|i: int| 0 <= i < count && (#[trigger] run.done[i]).size == size;
            assert(run.is_done(run.done[i]));
        }
    }
    let wanted = run.buckets.contains_key(size) && same.len() > 1;
    let e = run.start()(same[0]);
    assert forall|i: int| 0 <= i < given.len() implies p(#[trigger] given[i]) == (wanted
        && labels[i] == (size, e)) && (p(given[i]) ==> same_members(
        path_bytes(given[i].1@[d]),
        same,
    )) by {
        let label = labels[i];
        assert(groups_paths(run.found[i]@, path_bytes(tasks[i].1@), run.whole()));
        assert(run.found[i]@.contains_key(d) <==> path_bytes(tasks[i].1@).filter(
            gives(run.whole(), d),
        ).len() > 1);
        if label.0 == size {
            assert(labels.contains((label.0, label.1)));
            lemma_one_start(
                run.content,
                run.partial_size,
                bucket,
                path_bytes(tasks[i].1@),
                label.1,
                d,
            );
        }
    }
    if wanted {
        let start = gives(run.start(), e);
        assert(bucket.filter(start).len() > 1) by {
            assert(same_members(bucket.filter(start), bucket.filter(start)));
            lemma_one_start(run.content, run.partial_size, bucket, bucket.filter(start), e, d);
            bucket.filter(start).lemma_filter_len(gives(run.whole(), d));
        }
        let n = choose|n: int| 0 <= n < run.done.len() && (#[trigger] run.done[n]).size == size;
        assert(run.is_early(count, size));
        assert(labels.contains((size, e)));
        let i = choose|i: int| 0 <= i < labels.len() && labels[i] == (size, e);
        assert forall|j: int| 0 <= j < given.len() && j != i implies !p(#[trigger] given[j]) by {
            assert(labels[j] != labels[i]);
        }
        assert(p(given[i]));
        lemma_one_kept(given, p, i);
        let kept = run.results.filter(p);
        lemma_came_from(kept, given.filter(p), 0);
        assert(kept[0] == given[i]);
    } else {
        lemma_none_kept(given, p);
    }
}

} // verus!
