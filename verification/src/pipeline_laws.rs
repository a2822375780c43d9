//! What holds of the filters one after the other, and of the comparison of files that pass them.

use crate::comparator::{
    all_differ, lemma_first_equal_file_is_the_original, lemma_kept_files_differ, outcome_from,
    StepKind,
};
use crate::digest::{content_digest, Digest};
use crate::file_selector::start_of;
use crate::gate::{gate_run, has_key, lemma_gate_keeps_twins, with_key};
use crate::path_order::{in_order, lemma_with_path, same_path, with_path};
use crate::seqs::{lemma_filter_of_same_members, same_members};
use vstd::prelude::*;

verus! {

/// A file, as far as the filters tell files apart.
pub struct FileRecord {
    pub path: Seq<u8>,
    pub content: Seq<u8>,
}

/// What the first filter tells files apart by.
pub open spec fn by_size() -> spec_fn(FileRecord) -> nat {
    |f: FileRecord| f.content.len()
}

/// What the second filter tells files apart by: the size and the digest of the start.
pub open spec fn by_start(read_size: usize) -> spec_fn(FileRecord) -> (nat, Digest) {
    |f: FileRecord| (f.content.len(), content_digest(start_of(f.content, read_size)))
}

/// What the third filter tells files apart by: the size and the digest.
pub open spec fn by_digest_of_all() -> spec_fn(FileRecord) -> (nat, Digest) {
    |f: FileRecord| (f.content.len(), content_digest(f.content))
}

/// What the comparison tells files apart by.
pub open spec fn by_content() -> spec_fn(FileRecord) -> Seq<u8> {
    |f: FileRecord| f.content
}

/// A filter whose key is the same for files with the same content lets all files with a content
/// pass that more than one file has.
proof fn lemma_stage<K>(
    key: spec_fn(FileRecord) -> K,
    before: Seq<FileRecord>,
    input: Seq<FileRecord>,
    content: Seq<u8>,
)
    requires
        forall|a: FileRecord, b: FileRecord|
            a.content == b.content ==> #[trigger] key(a) == #[trigger] key(b),
        same_members(before, input),
        with_key(by_content(), before, content).len() >= 2,
    ensures
        same_members(
            with_key(by_content(), gate_run(key, input), content),
            with_key(by_content(), before, content),
        ),
        with_key(by_content(), gate_run(key, input), content).len() >= 2,
{
    lemma_filter_of_same_members(before, input, has_key(by_content(), content));
    lemma_gate_keeps_twins(key, by_content(), input, content);
}

/// The filters take no file away that has a twin: where each filter gets what the one before lets
/// through, in whatever order, all files with a content come out at the end, if there is more than
/// one.
pub proof fn lemma_filters_keep_twins(
    files: Seq<FileRecord>,
    read_size: usize,
    sized: Seq<FileRecord>,
    started: Seq<FileRecord>,
    hashed: Seq<FileRecord>,
    content: Seq<u8>,
)
    requires
        same_members(files, sized),
        same_members(gate_run(by_size(), sized), started),
        same_members(gate_run(by_start(read_size), started), hashed),
        with_key(by_content(), files, content).len() >= 2,
    ensures
        same_members(
            with_key(by_content(), gate_run(by_digest_of_all(), hashed), content),
            with_key(by_content(), files, content),
        ),
{
    lemma_stage(by_size(), files, sized, content);
    let first = gate_run(by_size(), sized);
    lemma_stage(by_start(read_size), first, started, content);
    let second = gate_run(by_start(read_size), started);
    lemma_stage(by_digest_of_all(), second, hashed, content);
}

/// How the comparison leaves the files that are kept, when the file at `path` comes; `modes` and
/// `contents` give the permissions and the content of every path.
pub open spec fn kept_after(
    originals: Seq<Seq<u8>>,
    path: Seq<u8>,
    modes: spec_fn(Seq<u8>) -> u32,
    contents: spec_fn(Seq<u8>) -> Seq<u8>,
) -> Seq<Seq<u8>> {
    match verdict(originals, path, modes, contents) {
        StepKind::Kept => with_path(originals, path),
        _ => originals,
    }
}

/// How the comparison of the file at `path` ends.
pub open spec fn verdict(
    originals: Seq<Seq<u8>>,
    path: Seq<u8>,
    modes: spec_fn(Seq<u8>) -> u32,
    contents: spec_fn(Seq<u8>) -> Seq<u8>,
) -> StepKind {
    outcome_from(
        originals.len(),
        |i: int| modes(originals[i]) == modes(path),
        |i: int| contents(originals[i]) == contents(path),
        0,
    )
}

/// The files that are kept after files of one size and digest have come, from none.
pub open spec fn kept_of(
    paths: Seq<Seq<u8>>,
    modes: spec_fn(Seq<u8>) -> u32,
    contents: spec_fn(Seq<u8>) -> Seq<u8>,
) -> Seq<Seq<u8>>
    decreases paths.len(),
{
    if paths.len() == 0 {
        seq![]
    } else {
        kept_after(kept_of(paths.drop_last(), modes, contents), paths.last(), modes, contents)
    }
}

/// Whether two paths lead to files with the same permissions and the same content.
pub open spec fn are_twins(
    a: Seq<u8>,
    b: Seq<u8>,
    modes: spec_fn(Seq<u8>) -> u32,
    contents: spec_fn(Seq<u8>) -> Seq<u8>,
) -> bool {
    modes(a) == modes(b) && contents(a) == contents(b)
}

proof fn lemma_kept(
    paths: Seq<Seq<u8>>,
    modes: spec_fn(Seq<u8>) -> u32,
    contents: spec_fn(Seq<u8>) -> Seq<u8>,
)
    requires
        forall|a: Seq<u8>, b: Seq<u8>| #[trigger]
            same_path(a, b) ==> are_twins(a, b, modes, contents),
    ensures
        ({
            let originals = kept_of(paths, modes, contents);
            &&& in_order(originals)
            &&& all_differ(originals, modes, contents)
            &&& forall|k: int|
                0 <= k < paths.len() ==> exists|i: int|
                    0 <= i < originals.len() && are_twins(
                        #[trigger] originals[i],
                        #[trigger] paths[k],
                        modes,
                        contents,
                    )
        }),
    decreases paths.len(),
{
    if paths.len() > 0 {
        let front = paths.drop_last();
        let path = paths.last();
        lemma_kept(front, modes, contents);
        let before = kept_of(front, modes, contents);
        let after = kept_of(paths, modes, contents);
        let same_mode = |i: int| modes(before[i]) == modes(path);
        let same_content = |i: int| contents(before[i]) == contents(path);
        lemma_first_equal_file_is_the_original(before.len(), same_mode, same_content);
        if verdict(before, path, modes, contents) is Kept {
            lemma_kept_files_differ(before, path, modes, contents);
            lemma_with_path(before, path);
        }
        assert forall|k: int| 0 <= k < paths.len() implies exists|i: int|
            0 <= i < after.len() && are_twins(
                #[trigger] after[i],
                #[trigger] paths[k],
                modes,
                contents,
            ) by {
            if k < front.len() {
                assert(front[k] == paths[k]);
                let i = choose|i: int|
                    0 <= i < before.len() && are_twins(
                        #[trigger] before[i],
                        front[k],
                        modes,
                        contents,
                    );
                assert(before.contains(before[i]));
                assert(after.contains(before[i]));
                let j = choose|j: int| 0 <= j < after.len() && after[j] == before[i];
                assert(are_twins(after[j], paths[k], modes, contents));
            } else {
                match verdict(before, path, modes, contents) {
                    StepKind::Duplicate(at) => {
                        assert(same_mode(at) && same_content(at));
                        assert(are_twins(after[at], paths[k], modes, contents));
                    },
                    _ => {
                        let i = choose|i: int|
                            0 <= i < after.len() && same_path(#[trigger] after[i], path);
                        assert(are_twins(after[i], paths[k], modes, contents));
                    },
                }
            }
        }
    }
}

/// Among files of one size and digest that do not change, a file is reported as a duplicate
/// exactly if one with its permissions and its content has come before it; and what it is reported
/// as a duplicate of is such a file. This asks that two spellings of a path lead to the same file.
pub proof fn lemma_every_twin_is_reported(
    paths: Seq<Seq<u8>>,
    modes: spec_fn(Seq<u8>) -> u32,
    contents: spec_fn(Seq<u8>) -> Seq<u8>,
    j: int,
)
    requires
        0 <= j < paths.len(),
        forall|a: Seq<u8>, b: Seq<u8>| #[trigger]
            same_path(a, b) ==> are_twins(a, b, modes, contents),
    ensures
        ({
            let originals = kept_of(paths.take(j), modes, contents);
            let end = verdict(originals, paths[j], modes, contents);
            &&& end is Duplicate <==> exists|i: int|
                0 <= i < j && are_twins(#[trigger] paths[i], paths[j], modes, contents)
            &&& end matches StepKind::Duplicate(at) ==> 0 <= at < originals.len() && are_twins(
                originals[at],
                paths[j],
                modes,
                contents,
            )
        }),
{
    let front = paths.take(j);
    let path = paths[j];
    let originals = kept_of(front, modes, contents);
    lemma_kept(front, modes, contents);
    lemma_kept_come_from(front, modes, contents);
    let same_mode = |i: int| modes(originals[i]) == modes(path);
    let same_content = |i: int| contents(originals[i]) == contents(path);
    lemma_first_equal_file_is_the_original(originals.len(), same_mode, same_content);
    match verdict(originals, path, modes, contents) {
        StepKind::Duplicate(at) => {
            assert(same_mode(at) && same_content(at));
            assert(originals.contains(originals[at]));
            assert(front.contains(originals[at]));
            let i = choose|i: int| 0 <= i < front.len() && front[i] == originals[at];
            assert(are_twins(paths[i], path, modes, contents));
        },
        _ => {
            if exists|i: int| 0 <= i < j && are_twins(#[trigger] paths[i], path, modes, contents) {
                let i = choose|i: int|
                    0 <= i < j && are_twins(#[trigger] paths[i], path, modes, contents);
                assert(front[i] == paths[i]);
                let k = choose|k: int|
                    0 <= k < originals.len() && are_twins(
                        #[trigger] originals[k],
                        front[i],
                        modes,
                        contents,
                    );
                assert(same_mode(k) && same_content(k));
            }
        },
    }
}

proof fn lemma_kept_come_from(
    paths: Seq<Seq<u8>>,
    modes: spec_fn(Seq<u8>) -> u32,
    contents: spec_fn(Seq<u8>) -> Seq<u8>,
)
    requires
        forall|a: Seq<u8>, b: Seq<u8>| #[trigger]
            same_path(a, b) ==> are_twins(a, b, modes, contents),
    ensures
        forall|p: Seq<u8>| #[trigger]
            kept_of(paths, modes, contents).contains(p) ==> paths.contains(p),
    decreases paths.len(),
{
    if paths.len() > 0 {
        let front = paths.drop_last();
        let path = paths.last();
        lemma_kept(front, modes, contents);
        lemma_kept_come_from(front, modes, contents);
        let before = kept_of(front, modes, contents);
        lemma_with_path(before, path);
        assert forall|p: Seq<u8>| #[trigger]
            kept_of(paths, modes, contents).contains(p) implies paths.contains(p) by {
            if before.contains(p) {
                assert(front.contains(p));
                let i = choose|i: int| 0 <= i < front.len() && front[i] == p;
                assert(paths[i] == p);
            } else {
                assert(p == path);
                assert(paths[paths.len() - 1] == p);
            }
        }
    }
}

/// What the file at place `k` is put under: the file that it is reported as a duplicate of, or the
/// file itself where it is kept.
pub open spec fn put_under(
    paths: Seq<Seq<u8>>,
    modes: spec_fn(Seq<u8>) -> u32,
    contents: spec_fn(Seq<u8>) -> Seq<u8>,
    k: int,
) -> Seq<u8> {
    let originals = kept_of(paths.take(k), modes, contents);
    match verdict(originals, paths[k], modes, contents) {
        StepKind::Duplicate(at) => originals[at],
        _ => paths[k],
    }
}

proof fn lemma_kept_stays(
    paths: Seq<Seq<u8>>,
    modes: spec_fn(Seq<u8>) -> u32,
    contents: spec_fn(Seq<u8>) -> Seq<u8>,
    k: int,
    p: Seq<u8>,
)
    requires
        forall|a: Seq<u8>, b: Seq<u8>| #[trigger]
            same_path(a, b) ==> are_twins(a, b, modes, contents),
        0 <= k <= paths.len(),
        kept_of(paths.take(k), modes, contents).contains(p),
    ensures
        kept_of(paths, modes, contents).contains(p),
    decreases paths.len(),
{
    if k == paths.len() {
        assert(paths.take(k) =~= paths);
    } else {
        let front = paths.drop_last();
        assert(front.take(k) =~= paths.take(k));
        lemma_kept_stays(front, modes, contents, k, p);
        lemma_kept(front, modes, contents);
        lemma_with_path(kept_of(front, modes, contents), paths.last());
    }
}

proof fn lemma_put_under_is_kept(
    paths: Seq<Seq<u8>>,
    modes: spec_fn(Seq<u8>) -> u32,
    contents: spec_fn(Seq<u8>) -> Seq<u8>,
    k: int,
)
    requires
        forall|a: Seq<u8>, b: Seq<u8>| #[trigger]
            same_path(a, b) ==> are_twins(a, b, modes, contents),
        0 <= k < paths.len(),
    ensures
        kept_of(paths.take(k + 1), modes, contents).contains(
            put_under(paths, modes, contents, k),
        ),
        are_twins(put_under(paths, modes, contents, k), paths[k], modes, contents),
{
    let front = paths.take(k);
    let path = paths[k];
    let originals = kept_of(front, modes, contents);
    lemma_kept(front, modes, contents);
    lemma_every_twin_is_reported(paths, modes, contents, k);
    assert(paths.take(k + 1).drop_last() =~= front);
    assert(paths.take(k + 1).last() == path);
    let same_mode = |i: int| modes(originals[i]) == modes(path);
    let same_content = |i: int| contents(originals[i]) == contents(path);
    lemma_first_equal_file_is_the_original(originals.len(), same_mode, same_content);
    match verdict(originals, path, modes, contents) {
        StepKind::Duplicate(at) => {
            assert(originals.contains(originals[at]));
        },
        _ => {
            lemma_with_path(originals, path);
            let result = with_path(originals, path);
            let i = choose|i: int| 0 <= i < result.len() && same_path(#[trigger] result[i], path);
            assert(result.contains(result[i]));
            if result[i] != path {
                assert(originals.contains(result[i]));
                let n = choose|n: int| 0 <= n < originals.len() && originals[n] == result[i];
                assert(are_twins(originals[n], path, modes, contents));
                assert(!(same_mode(n) && same_content(n)));
            }
        },
    }
}

/// Two files of one size and digest that have the same permissions and the same content are put
/// under the same file, and the later one is reported as a duplicate.
pub proof fn lemma_twins_share_an_original(
    paths: Seq<Seq<u8>>,
    modes: spec_fn(Seq<u8>) -> u32,
    contents: spec_fn(Seq<u8>) -> Seq<u8>,
    i: int,
    j: int,
)
    requires
        0 <= i < j < paths.len(),
        are_twins(paths[i], paths[j], modes, contents),
        forall|a: Seq<u8>, b: Seq<u8>| #[trigger]
            same_path(a, b) ==> are_twins(a, b, modes, contents),
    ensures
        put_under(paths, modes, contents, i) == put_under(paths, modes, contents, j),
        verdict(kept_of(paths.take(j), modes, contents), paths[j], modes, contents) is Duplicate,
{
    let front = paths.take(j);
    let originals = kept_of(front, modes, contents);
    lemma_every_twin_is_reported(paths, modes, contents, j);
    assert(are_twins(paths[i], paths[j], modes, contents));
    lemma_put_under_is_kept(paths, modes, contents, i);
    assert(front.take(i + 1) =~= paths.take(i + 1));
    let o = put_under(paths, modes, contents, i);
    lemma_kept_stays(front, modes, contents, i + 1, o);
    lemma_kept(front, modes, contents);
    let n = choose|n: int| 0 <= n < originals.len() && originals[n] == o;
    match verdict(originals, paths[j], modes, contents) {
        StepKind::Duplicate(at) => {
            if at != n {
                assert(!(modes(originals[at]) == modes(originals[n]) && contents(originals[at])
                    == contents(originals[n])));
            }
        },
        _ => {},
    }
}

/// What a file is reported as a duplicate of has come before it, and has its permissions and its
/// content.
pub proof fn lemma_reported_came_before(
    paths: Seq<Seq<u8>>,
    modes: spec_fn(Seq<u8>) -> u32,
    contents: spec_fn(Seq<u8>) -> Seq<u8>,
    k: int,
)
    requires
        0 <= k < paths.len(),
        verdict(kept_of(paths.take(k), modes, contents), paths[k], modes, contents) is Duplicate,
        forall|a: Seq<u8>, b: Seq<u8>| #[trigger]
            same_path(a, b) ==> are_twins(a, b, modes, contents),
    ensures
        paths.take(k).contains(put_under(paths, modes, contents, k)),
        are_twins(put_under(paths, modes, contents, k), paths[k], modes, contents),
{
    let originals = kept_of(paths.take(k), modes, contents);
    lemma_every_twin_is_reported(paths, modes, contents, k);
    lemma_kept_come_from(paths.take(k), modes, contents);
    match verdict(originals, paths[k], modes, contents) {
        StepKind::Duplicate(at) => {
            assert(originals.contains(originals[at]));
        },
        _ => {},
    }
}

} // verus!
