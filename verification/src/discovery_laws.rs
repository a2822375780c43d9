//! What holds of the walk and of the filters behind it, whatever the files are.

use crate::file_discovery_actors::{
    file_of_entry, inode_next, inode_out, is_excluded, queue_after_entry, size_next, size_out,
    EntryKind, FileExclusionFilter, FileInfo, FileSizeMessage,
};
use crate::gate::{gate_run, gate_state, has_key, lemma_gate_passes_what_is_not_alone};
use crate::path::{components, extension, lossy_text, path_starts_with, FilePath};
use crate::seqs::{lemma_filter_twice, lemma_kept_was_there};
use vstd::prelude::*;

verus! {

/// What a directory lists: the path of every entry, and what it is.
pub type Listing = Seq<(FilePath, Option<EntryKind>)>;

/// How far a walk has come.
pub struct Walk {
    /// The directories that wait to be read.
    pub queue: Seq<FilePath>,
    /// The directories that have been read.
    pub done: Seq<FilePath>,
    /// The files that have been handed on.
    pub found: Seq<FilePath>,
}

/// The walk after all entries of a listing have been met, one after the other.
pub open spec fn meet_entries(walk: Walk, entries: Listing, excluded: Seq<FilePath>) -> Walk
    decreases entries.len(),
{
    if entries.len() == 0 {
        walk
    } else {
        let before = meet_entries(walk, entries.drop_last(), excluded);
        let (path, kind) = entries.last();
        Walk {
            queue: queue_after_entry(before.queue, path, kind, excluded),
            done: before.done,
            found: match file_of_entry(path, kind, excluded) {
                Some(file) => before.found.push(file),
                None => before.found,
            },
        }
    }
}

/// The walk from the directories `roots`, after `steps` directories have been read, or fewer
/// where none waits any more. `lists` gives the entries of every directory.
pub open spec fn walk_after(
    roots: Seq<FilePath>,
    excluded: Seq<FilePath>,
    lists: spec_fn(FilePath) -> Listing,
    steps: nat,
) -> Walk
    decreases steps,
{
    if steps == 0 {
        Walk { queue: roots, done: seq![], found: seq![] }
    } else {
        let walk = walk_after(roots, excluded, lists, (steps - 1) as nat);
        if walk.queue.len() == 0 {
            walk
        } else {
            let directory = walk.queue[0];
            meet_entries(
                Walk {
                    queue: walk.queue.drop_first(),
                    done: walk.done.push(directory),
                    found: walk.found,
                },
                lists(directory),
                excluded,
            )
        }
    }
}

/// A way down: a first directory, and behind every directory one that it lists and that is not
/// excluded.
pub open spec fn is_way_down(
    way: Seq<FilePath>,
    excluded: Seq<FilePath>,
    lists: spec_fn(FilePath) -> Listing,
) -> bool {
    &&& way.len() > 0
    &&& forall|i: int|
        0 < i < way.len() ==> lists(way[i - 1]).contains(
            (#[trigger] way[i], Some(EntryKind::Directory)),
        ) && !is_excluded(way[i]@, excluded)
}

proof fn lemma_meet_entries(walk: Walk, entries: Listing, excluded: Seq<FilePath>)
    ensures
        ({
            let after = meet_entries(walk, entries, excluded);
            &&& after.done == walk.done
            &&& forall|path: FilePath|
                after.queue.contains(path) <==> walk.queue.contains(path) || (entries.contains(
                    (path, Some(EntryKind::Directory)),
                ) && !is_excluded(path@, excluded))
            &&& forall|path: FilePath|
                after.found.contains(path) <==> walk.found.contains(path) || (entries.contains(
                    (path, Some(EntryKind::File)),
                ) && !is_excluded(path@, excluded))
        }),
    decreases entries.len(),
{
    if entries.len() > 0 {
        let front = entries.drop_last();
        let (path, kind) = entries.last();
        lemma_meet_entries(walk, front, excluded);
        let before = meet_entries(walk, front, excluded);
        let after = meet_entries(walk, entries, excluded);
        assert(entries =~= front.push(entries.last()));
        assert forall|e: (FilePath, Option<EntryKind>)|
            entries.contains(e) <==> front.contains(e) || e == entries.last() by {
            if front.contains(e) {
                let i = choose|i: int| 0 <= i < front.len() && front[i] == e;
                assert(entries[i] == e);
            }
            if e == entries.last() {
                assert(entries[entries.len() - 1] == e);
            }
        }
        assert forall|p: FilePath|
            after.queue.contains(p) <==> before.queue.contains(p) || (p == path && kind == Some(
                EntryKind::Directory,
            ) && !is_excluded(path@, excluded)) by {
            lemma_push_contains(before.queue, path, p);
        }
        assert forall|p: FilePath|
            after.found.contains(p) <==> before.found.contains(p) || (p == path && kind == Some(
                EntryKind::File,
            ) && !is_excluded(path@, excluded)) by {
            lemma_push_contains(before.found, path, p);
        }
    }
}

proof fn lemma_push_contains<T>(s: Seq<T>, x: T, y: T)
    ensures
        s.push(x).contains(y) <==> s.contains(y) || x == y,
{
    if s.contains(y) {
        let i = choose|i: int| 0 <= i < s.len() && s[i] == y;
        assert(s.push(x)[i] == y);
    }
    assert(s.push(x)[s.len() as int] == x);
}

proof fn lemma_walk(
    roots: Seq<FilePath>,
    excluded: Seq<FilePath>,
    lists: spec_fn(FilePath) -> Listing,
    steps: nat,
)
    ensures
        ({
            let walk = walk_after(roots, excluded, lists, steps);
            &&& forall|p: FilePath|
                roots.contains(p) ==> walk.done.contains(p) || #[trigger] walk.queue.contains(p)
            &&& forall|d: FilePath, p: FilePath|
                #![trigger walk.done.contains(d), walk.queue.contains(p)]
                walk.done.contains(d) && lists(d).contains((p, Some(EntryKind::Directory)))
                    && !is_excluded(p@, excluded) ==> walk.done.contains(p)
                    || walk.queue.contains(p)
            &&& forall|d: FilePath, p: FilePath|
                #![trigger walk.done.contains(d), walk.found.contains(p)]
                walk.done.contains(d) && lists(d).contains((p, Some(EntryKind::File)))
                    && !is_excluded(p@, excluded) ==> walk.found.contains(p)
            &&& forall|p: FilePath| #[trigger]
                walk.found.contains(p) ==> !is_excluded(p@, excluded) && exists|d: FilePath|
                    walk.done.contains(d) && #[trigger] lists(d).contains(
                        (p, Some(EntryKind::File)),
                    )
        }),
    decreases steps,
{
    if steps > 0 {
        lemma_walk(roots, excluded, lists, (steps - 1) as nat);
        let walk = walk_after(roots, excluded, lists, (steps - 1) as nat);
        if walk.queue.len() > 0 {
            let directory = walk.queue[0];
            let popped = Walk {
                queue: walk.queue.drop_first(),
                done: walk.done.push(directory),
                found: walk.found,
            };
            lemma_meet_entries(popped, lists(directory), excluded);
            let after = walk_after(roots, excluded, lists, steps);
            assert forall|p: FilePath| walk.queue.contains(p) implies popped.queue.contains(p) || p
                == directory by {
                let i = choose|i: int| 0 <= i < walk.queue.len() && walk.queue[i] == p;
                if i > 0 {
                    assert(popped.queue[i - 1] == p);
                }
            }
            assert forall|p: FilePath|
                after.done.contains(p) <==> walk.done.contains(p) || p == directory by {
                lemma_push_contains(walk.done, directory, p);
            }
            assert forall|p: FilePath| roots.contains(p) implies after.done.contains(p)
                || #[trigger] after.queue.contains(p) by {
                assert(walk.done.contains(p) || walk.queue.contains(p));
            }
            assert forall|d: FilePath, p: FilePath|
                #![trigger after.done.contains(d), after.queue.contains(p)]
                after.done.contains(d) && lists(d).contains((p, Some(EntryKind::Directory)))
                    && !is_excluded(p@, excluded) implies after.done.contains(p)
                || after.queue.contains(p) by {
                if d != directory {
                    assert(walk.done.contains(d));
                    assert(walk.done.contains(p) || walk.queue.contains(p));
                }
            }
            assert forall|d: FilePath, p: FilePath|
                #![trigger after.done.contains(d), after.found.contains(p)]
                after.done.contains(d) && lists(d).contains((p, Some(EntryKind::File)))
                    && !is_excluded(p@, excluded) implies after.found.contains(p) by {
                if d != directory {
                    assert(walk.done.contains(d));
                    assert(walk.found.contains(p));
                }
            }
            assert forall|p: FilePath| #[trigger] after.found.contains(p) implies !is_excluded(
                p@,
                excluded,
            ) && exists|d: FilePath|
                after.done.contains(d) && #[trigger] lists(d).contains(
                    (p, Some(EntryKind::File)),
                ) by {
                if walk.found.contains(p) {
                    let d = choose|d: FilePath|
                        walk.done.contains(d) && #[trigger] lists(d).contains(
                            (p, Some(EntryKind::File)),
                        );
                    assert(after.done.contains(d));
                } else {
                    assert(after.done.contains(directory));
                    assert(lists(directory).contains((p, Some(EntryKind::File))));
                }
            }
        }
    }
}

/// When no directory waits any more, every file has been handed on that is listed by a directory
/// to which a way leads down from a root, if it is not excluded.
pub proof fn lemma_walk_finds_every_file(
    roots: Seq<FilePath>,
    excluded: Seq<FilePath>,
    lists: spec_fn(FilePath) -> Listing,
    steps: nat,
    way: Seq<FilePath>,
    file: FilePath,
)
    requires
        walk_after(roots, excluded, lists, steps).queue.len() == 0,
        is_way_down(way, excluded, lists),
        roots.contains(way[0]),
        lists(way.last()).contains((file, Some(EntryKind::File))),
        !is_excluded(file@, excluded),
    ensures
        walk_after(roots, excluded, lists, steps).found.contains(file),
{
    let walk = walk_after(roots, excluded, lists, steps);
    lemma_walk(roots, excluded, lists, steps);
    lemma_way_is_read(roots, excluded, lists, steps, way);
    assert(walk.done.contains(way.last()));
}

proof fn lemma_way_is_read(
    roots: Seq<FilePath>,
    excluded: Seq<FilePath>,
    lists: spec_fn(FilePath) -> Listing,
    steps: nat,
    way: Seq<FilePath>,
)
    requires
        walk_after(roots, excluded, lists, steps).queue.len() == 0,
        is_way_down(way, excluded, lists),
        roots.contains(way[0]),
    ensures
        walk_after(roots, excluded, lists, steps).done.contains(way.last()),
    decreases way.len(),
{
    let walk = walk_after(roots, excluded, lists, steps);
    lemma_walk(roots, excluded, lists, steps);
    if way.len() == 1 {
        assert(!walk.queue.contains(way[0]));
    } else {
        let front = way.drop_last();
        assert forall|i: int| 0 < i < front.len() implies lists(front[i - 1]).contains(
            (#[trigger] front[i], Some(EntryKind::Directory)),
        ) && !is_excluded(front[i]@, excluded) by {
            assert(front[i] == way[i]);
            assert(front[i - 1] == way[i - 1]);
        }
        lemma_way_is_read(roots, excluded, lists, steps, front);
        let last = way[way.len() - 1];
        assert(front.last() == way[way.len() - 2]);
        assert(!walk.queue.contains(last));
        assert(walk.done.contains(front.last()));
    }
}

/// Whether a way leads down from a root to a directory.
pub open spec fn is_reached(
    roots: Seq<FilePath>,
    excluded: Seq<FilePath>,
    lists: spec_fn(FilePath) -> Listing,
    directory: FilePath,
) -> bool {
    exists|way: Seq<FilePath>| #[trigger]
        is_way_down(way, excluded, lists) && roots.contains(way[0]) && way.last() == directory
}

proof fn lemma_only_reached_directories(
    roots: Seq<FilePath>,
    excluded: Seq<FilePath>,
    lists: spec_fn(FilePath) -> Listing,
    steps: nat,
)
    ensures
        ({
            let walk = walk_after(roots, excluded, lists, steps);
            forall|d: FilePath|
                walk.queue.contains(d) || walk.done.contains(d) ==> #[trigger] is_reached(
                    roots,
                    excluded,
                    lists,
                    d,
                )
        }),
    decreases steps,
{
    let walk = walk_after(roots, excluded, lists, steps);
    if steps == 0 {
        assert forall|d: FilePath|
            walk.queue.contains(d) || walk.done.contains(d) implies #[trigger] is_reached(
            roots,
            excluded,
            lists,
            d,
        ) by {
            let way = seq![d];
            assert(is_way_down(way, excluded, lists));
            assert(way.last() == d);
        }
    } else {
        let before = walk_after(roots, excluded, lists, (steps - 1) as nat);
        lemma_only_reached_directories(roots, excluded, lists, (steps - 1) as nat);
        if before.queue.len() > 0 {
            let directory = before.queue[0];
            let rest = before.queue.drop_first();
            assert(before.queue.contains(directory));
            assert(is_reached(roots, excluded, lists, directory));
            let started = Walk {
                queue: rest,
                done: before.done.push(directory),
                found: before.found,
            };
            lemma_meet_entries(started, lists(directory), excluded);
            let way = choose|way: Seq<FilePath>| #[trigger]
                is_way_down(way, excluded, lists) && roots.contains(way[0]) && way.last()
                    == directory;
            assert forall|d: FilePath|
                walk.queue.contains(d) || walk.done.contains(d) implies #[trigger] is_reached(
                roots,
                excluded,
                lists,
                d,
            ) by {
                lemma_push_contains(before.done, directory, d);
                if rest.contains(d) {
                    let i = choose|i: int| 0 <= i < rest.len() && rest[i] == d;
                    assert(before.queue[i + 1] == d);
                    assert(before.queue.contains(d));
                } else if walk.queue.contains(d) {
                    let longer = way.push(d);
                    assert(longer[way.len() - 1] == directory);
                    assert forall|i: int| 0 < i < longer.len() implies lists(
                        longer[i - 1],
                    ).contains((#[trigger] longer[i], Some(EntryKind::Directory))) && !is_excluded(
                        longer[i]@,
                        excluded,
                    ) by {
                        if i < way.len() {
                            assert(longer[i] == way[i]);
                            assert(longer[i - 1] == way[i - 1]);
                        }
                    }
                    assert(is_way_down(longer, excluded, lists));
                    assert(longer[0] == way[0]);
                    assert(longer.last() == d);
                }
            }
        }
    }
}

/// Nothing is handed on but files that are not excluded, each listed by a directory to which a way
/// leads down from a root.
pub proof fn lemma_walk_finds_nothing_else(
    roots: Seq<FilePath>,
    excluded: Seq<FilePath>,
    lists: spec_fn(FilePath) -> Listing,
    steps: nat,
    file: FilePath,
)
    requires
        walk_after(roots, excluded, lists, steps).found.contains(file),
    ensures
        !is_excluded(file@, excluded),
        exists|d: FilePath|
            is_reached(roots, excluded, lists, d) && #[trigger] lists(d).contains(
                (file, Some(EntryKind::File)),
            ),
{
    lemma_walk(roots, excluded, lists, steps);
    lemma_only_reached_directories(roots, excluded, lists, steps);
    let walk = walk_after(roots, excluded, lists, steps);
    let d = choose|d: FilePath|
        walk.done.contains(d) && #[trigger] lists(d).contains((file, Some(EntryKind::File)));
    assert(is_reached(roots, excluded, lists, d));
}

/// The files known after all of `input` has come, from none known.
pub open spec fn inode_state(input: Seq<(FilePath, Option<FileInfo>)>) -> Set<(u64, u64)>
    decreases input.len(),
{
    if input.len() == 0 {
        Set::empty()
    } else {
        inode_next(inode_state(input.drop_last()), input.last().1)
    }
}

/// All that passes while `input` comes, from no file known.
pub open spec fn inode_run(input: Seq<(FilePath, Option<FileInfo>)>) -> Seq<(FilePath, FileInfo)>
    decreases input.len(),
{
    if input.len() == 0 {
        seq![]
    } else {
        let before = inode_run(input.drop_last());
        match inode_out(inode_state(input.drop_last()), input.last().0, input.last().1) {
            Some(passed) => before.push(passed),
            None => before,
        }
    }
}

/// The device and the number of a file.
pub open spec fn file_id(info: FileInfo) -> (u64, u64) {
    (info.dev, info.ino)
}

/// No file passes twice, every file passes that was met under any name, and what passes is what
/// came.
pub proof fn lemma_every_file_passes_once(input: Seq<(FilePath, Option<FileInfo>)>)
    ensures
        forall|i: int, j: int|
            #![trigger inode_run(input)[i], inode_run(input)[j]]
            0 <= i < j < inode_run(input).len() ==> file_id(inode_run(input)[i].1) != file_id(
                inode_run(input)[j].1,
            ),
        forall|i: int|
            #![trigger input[i]]
            0 <= i < input.len() && input[i].1 is Some ==> exists|j: int|
                0 <= j < inode_run(input).len() && file_id((#[trigger] inode_run(input)[j]).1)
                    == file_id(input[i].1->0),
        forall|j: int|
            #![trigger inode_run(input)[j]]
            0 <= j < inode_run(input).len() ==> input.contains(
                (inode_run(input)[j].0, Some(inode_run(input)[j].1)),
            ),
{
    lemma_inode(input);
    assert forall|i: int|
        #![trigger input[i]]
        0 <= i < input.len() && input[i].1 is Some implies exists|j: int|
        0 <= j < inode_run(input).len() && file_id((#[trigger] inode_run(input)[j]).1) == file_id(
            input[i].1->0,
        ) by {
        assert(inode_state(input).contains(file_id(input[i].1->0)));
    }
}

proof fn lemma_inode(input: Seq<(FilePath, Option<FileInfo>)>)
    ensures
        forall|i: int, j: int|
            #![trigger inode_run(input)[i], inode_run(input)[j]]
            0 <= i < j < inode_run(input).len() ==> file_id(inode_run(input)[i].1) != file_id(
                inode_run(input)[j].1,
            ),
        forall|id: (u64, u64)| #[trigger]
            inode_state(input).contains(id) <==> exists|j: int|
                0 <= j < inode_run(input).len() && file_id((#[trigger] inode_run(input)[j]).1)
                    == id,
        forall|i: int|
            #![trigger input[i]]
            0 <= i < input.len() && input[i].1 is Some ==> inode_state(input).contains(
                file_id(input[i].1->0),
            ),
        forall|j: int|
            #![trigger inode_run(input)[j]]
            0 <= j < inode_run(input).len() ==> input.contains(
                (inode_run(input)[j].0, Some(inode_run(input)[j].1)),
            ),
    decreases input.len(),
{
    if input.len() > 0 {
        let front = input.drop_last();
        lemma_inode(front);
        let run = inode_run(input);
        let before = inode_run(front);
        let seen = inode_state(front);
        assert forall|id: (u64, u64)| #[trigger] inode_state(input).contains(id) <==> exists|j: int|
            0 <= j < run.len() && file_id((#[trigger] run[j]).1) == id by {
            if seen.contains(id) {
                let j = choose|j: int|
                    0 <= j < before.len() && file_id((#[trigger] before[j]).1) == id;
                assert(run[j] == before[j]);
            } else if inode_state(input).contains(id) {
                assert(run.last().1 == input.last().1->0);
                assert(file_id(run[run.len() - 1].1) == id);
            }
            if exists|j: int| 0 <= j < run.len() && file_id((#[trigger] run[j]).1) == id {
                let j = choose|j: int| 0 <= j < run.len() && file_id((#[trigger] run[j]).1) == id;
                if j < before.len() {
                    assert(run[j] == before[j]);
                    assert(seen.contains(id));
                }
            }
        }
        assert forall|i: int, j: int| #![trigger run[i], run[j]] 0 <= i < j < run.len() implies file_id(
            run[i].1,
        ) != file_id(run[j].1) by {
            assert(run[i] == before[i]);
            if j < before.len() {
                assert(run[j] == before[j]);
            } else {
                assert(seen.contains(file_id(before[i].1)));
            }
        }
        assert forall|i: int|
            #![trigger input[i]]
            0 <= i < input.len() && input[i].1 is Some implies inode_state(input).contains(
            file_id(input[i].1->0),
        ) by {
            if i < front.len() {
                assert(front[i] == input[i]);
            }
        }
        assert forall|j: int| #![trigger run[j]] 0 <= j < run.len() implies input.contains(
            (run[j].0, Some(run[j].1)),
        ) by {
            if j < before.len() {
                assert(run[j] == before[j]);
                let e = (before[j].0, Some(before[j].1));
                assert(front.contains(e));
                let i = choose|i: int| 0 <= i < front.len() && front[i] == e;
                assert(input[i] == e);
            } else {
                assert(input[input.len() - 1] == (run[j].0, Some(run[j].1)));
            }
        }
    }
}

/// What the first filter tells messages apart by.
pub open spec fn size_key() -> spec_fn(FileSizeMessage) -> u64 {
    |m: FileSizeMessage| m.size
}

/// Whether a file has at least a number of bytes.
pub open spec fn at_least(minimum_size: u64) -> spec_fn(FileSizeMessage) -> bool {
    |m: FileSizeMessage| m.size >= minimum_size
}

/// What is held back after all files of `input` have come, from nothing held back.
pub open spec fn size_state(minimum_size: u64, input: Seq<FileSizeMessage>) -> Map<
    u64,
    Option<FileSizeMessage>,
>
    decreases input.len(),
{
    if input.len() == 0 {
        Map::empty()
    } else {
        size_next(minimum_size, size_state(minimum_size, input.drop_last()), input.last())
    }
}

/// All that passes while the files of `input` come, from nothing held back.
pub open spec fn size_run(minimum_size: u64, input: Seq<FileSizeMessage>) -> Seq<FileSizeMessage>
    decreases input.len(),
{
    if input.len() == 0 {
        seq![]
    } else {
        size_run(minimum_size, input.drop_last()) + size_out(
            minimum_size,
            size_state(minimum_size, input.drop_last()),
            input.last(),
        )
    }
}

/// The size filter lets pass what a gate with the size as its key lets pass of the files that are
/// not too small. So of every size from the minimum on, all files pass or, where there is only
/// one, none; and no smaller file passes.
pub proof fn lemma_size_filter_is_a_gate(minimum_size: u64, input: Seq<FileSizeMessage>)
    ensures
        size_run(minimum_size, input) == gate_run(
            size_key(),
            input.filter(at_least(minimum_size)),
        ),
        size_state(minimum_size, input) == gate_state(
            size_key(),
            input.filter(at_least(minimum_size)),
        ),
    decreases input.len(),
{
    let large = at_least(minimum_size);
    let key = size_key();
    if input.len() == 0 {
        assert(input.filter(large) =~= seq![]);
    } else {
        let front = input.drop_last();
        let m = input.last();
        lemma_size_filter_is_a_gate(minimum_size, front);
        assert(input =~= front.push(m));
        front.lemma_filter_push(m, large);
        if large(m) {
            assert(front.filter(large).push(m).drop_last() =~= front.filter(large));
            assert(gate_run(key, input.filter(large)) == size_run(minimum_size, input));
        } else {
            assert(size_run(minimum_size, input) =~= size_run(minimum_size, front));
        }
    }
}

/// A path is left out exactly if it has all components of one of the excluded paths, in their
/// order, from its own first one on.
pub proof fn lemma_excluded_is_at_or_below(path: Seq<u8>, excluded: Seq<FilePath>)
    ensures
        is_excluded(path, excluded) <==> exists|i: int|
            0 <= i < excluded.len() && components((#[trigger] excluded[i]).bytes@).is_prefix_of(
                components(path),
            ),
{
    if is_excluded(path, excluded) {
        let i = choose|i: int|
            0 <= i < excluded.len() && path_starts_with(path, (#[trigger] excluded[i])@);
        assert(components(excluded[i].bytes@).is_prefix_of(components(path)));
    }
    if exists|i: int|
        0 <= i < excluded.len() && components((#[trigger] excluded[i]).bytes@).is_prefix_of(
            components(path),
        ) {
        let i = choose|i: int|
            0 <= i < excluded.len() && components((#[trigger] excluded[i]).bytes@).is_prefix_of(
                components(path),
            );
        assert(path_starts_with(path, excluded[i]@));
    }
}

/// A file passes the choice by extension exactly if its extension, as it reads, is none of the
/// excluded ones and, where some are asked for, is one of these. A file without an extension is
/// never excluded, and passes only where none are asked for.
pub proof fn lemma_extensions_choose(filter: FileExclusionFilter, path: FilePath)
    ensures
        match extension(path.bytes@) {
            Some(ext) => filter.admitted(path) <==> {
                &&& filter.excluded_extensions is Some ==> forall|i: int|
                    0 <= i < filter.excluded_extensions->0@.len() ==> (
                    #[trigger] filter.excluded_extensions->0@[i])@ != lossy_text(ext)
                &&& filter.included_extensions is Some ==> exists|i: int|
                    0 <= i < filter.included_extensions->0@.len() && (
                    #[trigger] filter.included_extensions->0@[i])@ == lossy_text(ext)
            },
            None => filter.admitted(path) <==> filter.included_extensions is None,
        },
{
}

/// The first name under which a file is met is the one that passes: a name passes exactly if what
/// it leads to could be found out and no earlier one led to the same file.
pub proof fn lemma_first_name_passes(input: Seq<(FilePath, Option<FileInfo>)>)
    requires
        input.len() > 0,
    ensures
        ({
            let (path, info) = input.last();
            let before = inode_run(input.drop_last());
            let new = info is Some && forall|i: int|
                0 <= i < input.len() - 1 ==> !((#[trigger] input[i]).1 is Some
                    && input[i].1->0.dev == info->0.dev && input[i].1->0.ino == info->0.ino);
            inode_run(input) == if new {
                before.push((path, info->0))
            } else {
                before
            }
        }),
{
    let front = input.drop_last();
    let (path, info) = input.last();
    lemma_inode(front);
    if info is Some {
        let id = (info->0.dev, info->0.ino);
        if inode_state(front).contains(id) {
            let j = choose|j: int|
                0 <= j < inode_run(front).len() && file_id((#[trigger] inode_run(front)[j]).1)
                    == id;
            let e = (inode_run(front)[j].0, Some(inode_run(front)[j].1));
            assert(front.contains(e));
            let i = choose|i: int| 0 <= i < front.len() && front[i] == e;
            assert(input[i] == e);
        } else {
            assert forall|i: int| 0 <= i < input.len() - 1 implies !((#[trigger] input[i]).1 is Some
                && input[i].1->0.dev == info->0.dev && input[i].1->0.ino == info->0.ino) by {
                assert(front[i] == input[i]);
            }
        }
    }
}

/// Of every size from the minimum on, all files pass in the order in which they came if there are
/// at least two, and none if there is only one; no smaller file passes.
pub proof fn lemma_files_that_share_their_size_pass(
    minimum_size: u64,
    input: Seq<FileSizeMessage>,
    size: u64,
)
    ensures
        ({
            let came = input.filter(|m: FileSizeMessage| m.size == size);
            let passed = size_run(minimum_size, input).filter(|m: FileSizeMessage| m.size == size);
            passed == if size >= minimum_size && came.len() >= 2 {
                came
            } else {
                Seq::empty()
            }
        }),
{
    let of_size = |m: FileSizeMessage| m.size == size;
    let large = at_least(minimum_size);
    assert(of_size =~= has_key(size_key(), size));
    lemma_size_filter_is_a_gate(minimum_size, input);
    lemma_gate_passes_what_is_not_alone(size_key(), input.filter(large), size);
    if size >= minimum_size {
        lemma_filter_twice(input, large, of_size);
    } else {
        let chosen = input.filter(large).filter(of_size);
        if chosen.len() > 0 {
            lemma_kept_was_there(input.filter(large), of_size, 0);
            let m = chosen[0];
            let k = choose|k: int|
                0 <= k < input.filter(large).len() && input.filter(large)[k] == m;
            lemma_kept_was_there(input, large, k);
        }
    }
}

} // verus!
