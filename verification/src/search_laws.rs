//! What holds of a whole search: between the first filter and the comparison no file is lost that
//! has a twin, no duplicate is missed, and nothing but duplicates is reported.

use crate::comparator::{BytewiseFileComparator, StepKind};
use crate::digest::{content_digest, Digest};
use crate::discovery_laws::{
    at_least, file_id, inode_run, is_reached, is_way_down, lemma_every_file_passes_once,
    lemma_size_filter_is_a_gate, lemma_walk_finds_every_file, lemma_walk_finds_nothing_else, size_key, size_run, walk_after,
};
use crate::file_discovery_actors::{is_excluded, EntryKind, FileInfo, FileSizeMessage};
use crate::file_selector::start_of;
use crate::full_hash::{hashed_bytes, lemma_digest_of_whole_file, FullHashMessage};
use crate::gate::{
    gate_run, go_together, has_key, lemma_gate_follows_things, lemma_gate_passes_what_is_not_alone,
    with_key,
};
use crate::hashing_laws::{
    channel_run, full_policy, handed_of, handed_on, has_finished, has_stopped,
    lemma_every_hash_is_handed_on, lemma_every_start_is_handed_on, lemma_handed_of_all,
    lemma_nothing_sent_is_dropped, partial_policy, task_run, ChannelEvent, TaskEvent,
};
use crate::partial_hash::{hashed_message, PartialHashMessage, TaskOutcome};
use crate::path::FilePath;
use crate::path_order::same_path;
use crate::pipeline_laws::{
    are_twins, by_content, by_digest_of_all, by_size, by_start, kept_of, lemma_filters_keep_twins,
    lemma_reported_came_before, lemma_twins_share_an_original, put_under, verdict, FileRecord,
};
use crate::seqs::{
    lemma_came_from, lemma_count_in_filter, lemma_filter_of_start, lemma_map_same_members, same_members,
};
use crate::walk_laws::Tree;
use vstd::prelude::*;

verus! {

/// The content that is read under every path.
pub type Contents = spec_fn(Seq<u8>) -> Seq<u8>;

/// The file under a path.
pub open spec fn record_of(content: Contents, path: Seq<u8>) -> FileRecord {
    FileRecord { path, content: content(path) }
}

/// The files under some paths.
pub open spec fn records(content: Contents, paths: Seq<Seq<u8>>) -> Seq<FileRecord> {
    paths.map_values(|path: Seq<u8>| record_of(content, path))
}

/// The paths of messages, by the function that gives the path of one.
pub open spec fn paths_by<M>(path: spec_fn(M) -> Seq<u8>, messages: Seq<M>) -> Seq<Seq<u8>> {
    messages.map_values(path)
}

/// The path of a message of the first filter.
pub open spec fn size_path() -> spec_fn(FileSizeMessage) -> Seq<u8> {
    |m: FileSizeMessage| m.path@
}

/// The path of a message of the second filter.
pub open spec fn start_path() -> spec_fn(PartialHashMessage) -> Seq<u8> {
    |m: PartialHashMessage| m.path@
}

/// The path of a message of the third filter.
pub open spec fn hash_path() -> spec_fn(FullHashMessage) -> Seq<u8> {
    |m: FullHashMessage| m.path@
}

/// What the second filter tells messages apart by.
pub open spec fn start_key() -> spec_fn(PartialHashMessage) -> (u64, Digest) {
    |m: PartialHashMessage| m.key()
}

/// What the third filter tells messages apart by.
pub open spec fn hash_key() -> spec_fn(FullHashMessage) -> (u64, Digest) {
    |m: FullHashMessage| m.key()
}

/// Whether a message of the first filter stands for a file.
pub open spec fn is_size_message(content: Contents) -> spec_fn(FileSizeMessage, FileRecord) -> bool {
    |m: FileSizeMessage, f: FileRecord|
        f == record_of(content, m.path@) && m.size == f.content.len()
}

/// Whether a message of the second filter stands for a file of which the start has been read.
pub open spec fn is_start_message(content: Contents, read_size: usize) -> spec_fn(
    PartialHashMessage,
    FileRecord,
) -> bool {
    |m: PartialHashMessage, f: FileRecord|
        f == record_of(content, m.path@) && m.file_size == f.content.len() && m.head@ == start_of(
            f.content,
            read_size,
        )
}

/// Whether a message of the third filter stands for a file that has been hashed.
pub open spec fn is_hash_message(content: Contents) -> spec_fn(FullHashMessage, FileRecord) -> bool {
    |m: FullHashMessage, f: FileRecord|
        f == record_of(content, m.path@) && m.file_size == f.content.len() && m.hash
            == content_digest(f.content)
}

/// Messages and the files under their paths go together where every message stands for its file.
proof fn lemma_go_together<M>(
    content: Contents,
    path: spec_fn(M) -> Seq<u8>,
    stands_for: spec_fn(M, FileRecord) -> bool,
    messages: Seq<M>,
)
    requires
        forall|i: int|
            0 <= i < messages.len() ==> stands_for(
                #[trigger] messages[i],
                record_of(content, path(messages[i])),
            ),
    ensures
        go_together(stands_for, messages, records(content, paths_by(path, messages))),
{
    let things = records(content, paths_by(path, messages));
    assert forall|i: int|
        #![trigger messages[i]]
        #![trigger things[i]]
        0 <= i < messages.len() implies stands_for(messages[i], things[i]) by {
        assert(things[i] == record_of(content, path(messages[i])));
    }
}

/// The files that go together with messages are those under their paths.
proof fn lemma_are_records<M>(
    content: Contents,
    path: spec_fn(M) -> Seq<u8>,
    stands_for: spec_fn(M, FileRecord) -> bool,
    messages: Seq<M>,
    things: Seq<FileRecord>,
)
    requires
        go_together(stands_for, messages, things),
        forall|m: M, f: FileRecord| #[trigger]
            stands_for(m, f) ==> f == record_of(content, path(m)),
    ensures
        things == records(content, paths_by(path, messages)),
        forall|i: int|
            0 <= i < messages.len() ==> stands_for(
                #[trigger] messages[i],
                record_of(content, path(messages[i])),
            ),
{
    let all = records(content, paths_by(path, messages));
    assert forall|i: int| 0 <= i < messages.len() implies things[i] == all[i] && stands_for(
        #[trigger] messages[i],
        record_of(content, path(messages[i])),
    ) by {
        assert(stands_for(messages[i], things[i]));
    }
    assert(things =~= all);
}

/// A search from the first filter on: what comes to that filter, and what happens in the stages
/// behind it.
pub struct Search {
    /// The content of every file, which does not change.
    pub content: Contents,
    pub minimum_size: u64,
    pub read_size: usize,
    pub max_tasks: usize,
    /// What comes to the first filter.
    pub sizes: Seq<FileSizeMessage>,
    /// What happens while the starts of files are read.
    pub starting: Seq<TaskEvent<TaskOutcome>>,
    /// What happens while files are hashed.
    pub hashing: Seq<TaskEvent<Option<FullHashMessage>>>,
    /// What happens while the third filter receives.
    pub receiving: Seq<ChannelEvent<FullHashMessage>>,
}

impl Search {
    /// The files that are large enough.
    pub open spec fn large(self) -> Seq<FileSizeMessage> {
        self.sizes.filter(at_least(self.minimum_size))
    }

    /// What the first filter lets through.
    pub open spec fn first_out(self) -> Seq<FileSizeMessage> {
        size_run(self.minimum_size, self.sizes)
    }

    /// What is handed on when the starts of files have been read.
    pub open spec fn starts(self) -> Seq<PartialHashMessage> {
        handed_on(partial_policy(self.max_tasks), self.starting)
    }

    /// What the second filter lets through.
    pub open spec fn second_out(self) -> Seq<PartialHashMessage> {
        gate_run(start_key(), self.starts())
    }

    /// What is handed on when files have been hashed.
    pub open spec fn hashes(self) -> Seq<FullHashMessage> {
        handed_on(full_policy(self.max_tasks), self.hashing)
    }

    /// What the third filter lets through, and the comparison gets.
    pub open spec fn third_out(self) -> Seq<FullHashMessage> {
        gate_run(hash_key(), channel_run(self.receiving).received)
    }

    /// Whether a message holds what the start of a file is.
    pub open spec fn is_start_of(self, file: FileSizeMessage, m: PartialHashMessage) -> bool {
        &&& m.path@ == file.path@
        &&& m.file_size == file.size
        &&& m.head@ == start_of((self.content)(file.path@), self.read_size)
    }

    /// Whether a message holds what comes of hashing the rest of a file.
    pub open spec fn is_hash_of(self, file: PartialHashMessage, m: FullHashMessage) -> bool {
        &&& m.path@ == file.path@
        &&& m.file_size == file.file_size
        &&& m.hash == content_digest(hashed_bytes(file, (self.content)(file.path@)))
    }

    /// Whether all files can be read and do not change, so that every file has the size that it was
    /// found with, and every task gives what it is to give for the file that it was started for; and
    /// whether all stages have come to their end.
    pub open spec fn goes_well(self) -> bool {
        let first = task_run(partial_policy(self.max_tasks), self.starting).started;
        let second = task_run(full_policy(self.max_tasks), self.hashing).started;
        &&& forall|i: int|
            0 <= i < self.sizes.len() ==> (#[trigger] self.sizes[i]).size == (self.content)(
                self.sizes[i].path@,
            ).len() && self.sizes[i].size <= usize::MAX
        &&& has_finished(partial_policy(self.max_tasks), self.starting)
        &&& first.len() == self.first_out().len()
        &&& forall|i: int|
            0 <= i < first.len() ==> (hashed_message(#[trigger] first[i]) matches Some(m)
                && self.is_start_of(self.first_out()[i], m))
        &&& has_finished(full_policy(self.max_tasks), self.hashing)
        &&& second.len() == self.second_out().len()
        &&& forall|i: int|
            0 <= i < second.len() ==> ((#[trigger] second[i]) matches Some(m) && self.is_hash_of(
                self.second_out()[i],
                m,
            ))
        &&& has_stopped(self.receiving)
        &&& channel_run(self.receiving).sent == self.hashes()
    }

    proof fn lemma_first(self)
        requires
            self.goes_well(),
        ensures
            gate_run(by_size(), records(self.content, paths_by(size_path(), self.large())))
                == records(self.content, paths_by(size_path(), self.first_out())),
            forall|i: int|
                0 <= i < self.first_out().len() ==> is_size_message(self.content)(
                    #[trigger] self.first_out()[i],
                    record_of(self.content, self.first_out()[i].path@),
                ) && self.first_out()[i].size <= usize::MAX,
    {
        let large = self.large();
        let small_enough = |m: FileSizeMessage, f: FileRecord|
            is_size_message(self.content)(m, f) && m.size <= usize::MAX;
        lemma_size_filter_is_a_gate(self.minimum_size, self.sizes);
        assert forall|i: int| 0 <= i < large.len() implies small_enough(
            #[trigger] large[i],
            record_of(self.content, size_path()(large[i])),
        ) by {
            assert(large.contains(large[i]));
            self.sizes.lemma_filter_contains_rev(at_least(self.minimum_size), large[i]);
            let n = choose|n: int| 0 <= n < self.sizes.len() && self.sizes[n] == large[i];
            assert(self.sizes[n].size == (self.content)(self.sizes[n].path@).len());
        }
        lemma_go_together(self.content, size_path(), small_enough, large);
        let files = records(self.content, paths_by(size_path(), large));
        lemma_gate_follows_things(small_enough, size_key(), by_size(), large, files);
        lemma_are_records(
            self.content,
            size_path(),
            small_enough,
            self.first_out(),
            gate_run(by_size(), files),
        );
        assert forall|i: int| 0 <= i < self.first_out().len() implies is_size_message(self.content)(
            #[trigger] self.first_out()[i],
            record_of(self.content, self.first_out()[i].path@),
        ) && self.first_out()[i].size <= usize::MAX by {
            assert(small_enough(
                self.first_out()[i],
                record_of(self.content, size_path()(self.first_out()[i])),
            ));
        }
    }

    proof fn lemma_second(self)
        requires
            self.goes_well(),
        ensures
            same_members(
                records(self.content, paths_by(size_path(), self.first_out())),
                records(self.content, paths_by(start_path(), self.starts())),
            ),
            gate_run(
                by_start(self.read_size),
                records(self.content, paths_by(start_path(), self.starts())),
            ) == records(self.content, paths_by(start_path(), self.second_out())),
            forall|i: int|
                0 <= i < self.second_out().len() ==> is_start_message(self.content, self.read_size)(
                    #[trigger] self.second_out()[i],
                    record_of(self.content, self.second_out()[i].path@),
                ) && self.second_out()[i].file_size <= usize::MAX,
    {
        let policy = partial_policy(self.max_tasks);
        let tasks = task_run(policy, self.starting).started;
        let given = handed_of(policy.hands_on, tasks);
        let starts = self.starts();
        let fits = |m: PartialHashMessage, f: FileRecord|
            is_start_message(self.content, self.read_size)(m, f) && m.file_size <= usize::MAX;
        self.lemma_first();
        lemma_every_start_is_handed_on(self.max_tasks, self.starting);
        assert forall|i: int| 0 <= i < tasks.len() implies (policy.hands_on)(
            #[trigger] tasks[i],
        ) is Some by {
            assert(hashed_message(tasks[i]) is Some);
        }
        lemma_handed_of_all(policy.hands_on, tasks);
        let out = self.first_out();
        assert forall|i: int| 0 <= i < given.len() implies fits(
            #[trigger] given[i],
            record_of(self.content, given[i].path@),
        ) && given[i].path@ == out[i].path@ by {
            assert(given[i] == hashed_message(tasks[i])->0);
            assert(is_size_message(self.content)(out[i], record_of(self.content, out[i].path@)));
        }
        assert(paths_by(start_path(), given) =~= paths_by(size_path(), out));
        lemma_map_same_members(given, starts, start_path());
        lemma_map_same_members(
            paths_by(start_path(), given),
            paths_by(start_path(), starts),
            |path: Seq<u8>| record_of(self.content, path),
        );
        assert forall|i: int| 0 <= i < starts.len() implies fits(
            #[trigger] starts[i],
            record_of(self.content, start_path()(starts[i])),
        ) by {
            lemma_came_from(starts, given, i);
            let n = choose|n: int| 0 <= n < given.len() && given[n] == starts[i];
            assert(fits(given[n], record_of(self.content, given[n].path@)));
        }
        lemma_go_together(self.content, start_path(), fits, starts);
        let files = records(self.content, paths_by(start_path(), starts));
        lemma_gate_follows_things(fits, start_key(), by_start(self.read_size), starts, files);
        lemma_are_records(
            self.content,
            start_path(),
            fits,
            self.second_out(),
            gate_run(by_start(self.read_size), files),
        );
        assert forall|i: int| 0 <= i < self.second_out().len() implies is_start_message(
            self.content,
            self.read_size,
        )(
            #[trigger] self.second_out()[i],
            record_of(self.content, self.second_out()[i].path@),
        ) && self.second_out()[i].file_size <= usize::MAX by {
            assert(fits(
                self.second_out()[i],
                record_of(self.content, start_path()(self.second_out()[i])),
            ));
        }
    }

    proof fn lemma_third(self)
        requires
            self.goes_well(),
        ensures
            same_members(
                records(self.content, paths_by(start_path(), self.second_out())),
                records(self.content, paths_by(hash_path(), self.hashes())),
            ),
            gate_run(
                by_digest_of_all(),
                records(self.content, paths_by(hash_path(), self.hashes())),
            ) == records(self.content, paths_by(hash_path(), self.third_out())),
            forall|i: int|
                0 <= i < self.third_out().len() ==> is_hash_message(self.content)(
                    #[trigger] self.third_out()[i],
                    record_of(self.content, self.third_out()[i].path@),
                ),
    {
        let policy = full_policy(self.max_tasks);
        let tasks = task_run(policy, self.hashing).started;
        let given = handed_of(policy.hands_on, tasks);
        let hashes = self.hashes();
        let fits = is_hash_message(self.content);
        self.lemma_second();
        lemma_every_hash_is_handed_on(self.max_tasks, self.hashing);
        lemma_nothing_sent_is_dropped(self.receiving);
        assert forall|i: int| 0 <= i < tasks.len() implies (policy.hands_on)(
            #[trigger] tasks[i],
        ) is Some by {
            assert(tasks[i] is Some);
        }
        lemma_handed_of_all(policy.hands_on, tasks);
        let out = self.second_out();
        assert forall|i: int| 0 <= i < given.len() implies fits(
            #[trigger] given[i],
            record_of(self.content, given[i].path@),
        ) && given[i].path@ == out[i].path@ by {
            assert(given[i] == tasks[i]->0);
            let content = (self.content)(out[i].path@);
            assert(is_start_message(self.content, self.read_size)(
                out[i],
                record_of(self.content, out[i].path@),
            ));
            assert(out[i].head@ =~= content.take(out[i].head@.len() as int));
            lemma_digest_of_whole_file(out[i], content);
        }
        assert(paths_by(hash_path(), given) =~= paths_by(start_path(), out));
        lemma_map_same_members(given, hashes, hash_path());
        lemma_map_same_members(
            paths_by(hash_path(), given),
            paths_by(hash_path(), hashes),
            |path: Seq<u8>| record_of(self.content, path),
        );
        assert forall|i: int| 0 <= i < hashes.len() implies fits(
            #[trigger] hashes[i],
            record_of(self.content, hash_path()(hashes[i])),
        ) by {
            lemma_came_from(hashes, given, i);
            let n = choose|n: int| 0 <= n < given.len() && given[n] == hashes[i];
            assert(fits(given[n], record_of(self.content, given[n].path@)));
        }
        lemma_go_together(self.content, hash_path(), fits, hashes);
        let files = records(self.content, paths_by(hash_path(), hashes));
        lemma_gate_follows_things(fits, hash_key(), by_digest_of_all(), hashes, files);
        lemma_are_records(
            self.content,
            hash_path(),
            fits,
            self.third_out(),
            gate_run(by_digest_of_all(), files),
        );
        assert forall|i: int| 0 <= i < self.third_out().len() implies is_hash_message(
            self.content,
        )(
            #[trigger] self.third_out()[i],
            record_of(self.content, self.third_out()[i].path@),
        ) by {
            assert(fits(
                self.third_out()[i],
                record_of(self.content, hash_path()(self.third_out()[i])),
            ));
        }
    }
}

/// No file that has a twin is lost: when all stages have come to their end, the comparison has got
/// all files with a content that are large enough, if there is more than one.
pub proof fn lemma_no_twin_is_lost(search: Search, content: Seq<u8>)
    requires
        search.goes_well(),
        with_key(
            by_content(),
            records(search.content, paths_by(size_path(), search.large())),
            content,
        ).len() >= 2,
    ensures
        same_members(
            with_key(
                by_content(),
                records(search.content, paths_by(hash_path(), search.third_out())),
                content,
            ),
            with_key(
                by_content(),
                records(search.content, paths_by(size_path(), search.large())),
                content,
            ),
        ),
{
    search.lemma_first();
    search.lemma_second();
    search.lemma_third();
    let files = records(search.content, paths_by(size_path(), search.large()));
    let started = records(search.content, paths_by(start_path(), search.starts()));
    let hashed = records(search.content, paths_by(hash_path(), search.hashes()));
    lemma_filters_keep_twins(files, search.read_size, files, started, hashed, content);
}

/// The paths of messages with a size and a digest, in order.
pub open spec fn paths_with(messages: Seq<FullHashMessage>, key: (u64, Digest)) -> Seq<Seq<u8>> {
    paths_by(hash_path(), with_key(hash_key(), messages, key))
}

/// The files that the comparison keeps under a size and a digest when messages have come.
pub open spec fn originals_of(
    messages: Seq<FullHashMessage>,
    key: (u64, Digest),
    modes: spec_fn(Seq<u8>) -> u32,
    contents: Contents,
) -> Seq<Seq<u8>> {
    kept_of(paths_with(messages, key), modes, contents)
}

/// How the comparison of the file of a message ends.
pub open spec fn end_of(
    messages: Seq<FullHashMessage>,
    modes: spec_fn(Seq<u8>) -> u32,
    contents: Contents,
    k: int,
) -> StepKind {
    verdict(
        originals_of(messages.take(k), messages[k].key(), modes, contents),
        messages[k].path@,
        modes,
        contents,
    )
}

/// The file that the file of a message is reported as a duplicate of, or the file itself where it is
/// kept.
pub open spec fn original_of(
    messages: Seq<FullHashMessage>,
    modes: spec_fn(Seq<u8>) -> u32,
    contents: Contents,
    k: int,
) -> Seq<u8> {
    match end_of(messages, modes, contents, k) {
        StepKind::Duplicate(at) => originals_of(
            messages.take(k),
            messages[k].key(),
            modes,
            contents,
        )[at],
        _ => messages[k].path@,
    }
}

/// The files that a comparator keeps are those that are kept of all messages that have come, from an
/// empty comparator on: a message whose comparison ends as `end_of` says leaves the files as
/// `originals_of` says.
pub proof fn lemma_comparator_keeps(
    before: BytewiseFileComparator,
    after: BytewiseFileComparator,
    messages: Seq<FullHashMessage>,
    modes: spec_fn(Seq<u8>) -> u32,
    contents: Contents,
)
    requires
        messages.len() > 0,
        forall|key: (u64, Digest)| #[trigger]
            before.originals(key) == originals_of(messages.drop_last(), key, modes, contents),
        after.follows(
            &before,
            end_of(messages, modes, contents, messages.len() - 1),
            messages.last(),
        ),
    ensures
        forall|key: (u64, Digest)| #[trigger]
            after.originals(key) == originals_of(messages, key, modes, contents),
{
    let front = messages.drop_last();
    let m = messages.last();
    assert(messages.take(messages.len() - 1) =~= front);
    assert(messages =~= front.push(m));
    assert forall|key: (u64, Digest)| #[trigger] after.originals(key) == originals_of(
        messages,
        key,
        modes,
        contents,
    ) by {
        front.lemma_filter_push(m, has_key(hash_key(), key));
        assert(before.originals(key) == originals_of(front, key, modes, contents));
        if key == m.key() {
            let paths = paths_with(messages, key);
            assert(paths =~= paths_with(front, key).push(m.path@));
            assert(paths.drop_last() =~= paths_with(front, key));
            assert(paths.last() == m.path@);
        } else {
            assert(paths_with(messages, key) == paths_with(front, key));
        }
    }
}

proof fn lemma_place_among_its_kind(
    messages: Seq<FullHashMessage>,
    modes: spec_fn(Seq<u8>) -> u32,
    contents: Contents,
    k: int,
) -> (place: int)
    requires
        0 <= k < messages.len(),
    ensures
        ({
            let paths = paths_with(messages, messages[k].key());
            &&& 0 <= place < paths.len()
            &&& place == with_key(hash_key(), messages.take(k), messages[k].key()).len()
            &&& paths[place] == messages[k].path@
            &&& paths.take(place) == paths_with(messages.take(k), messages[k].key())
            &&& original_of(messages, modes, contents, k) == put_under(
                paths,
                modes,
                contents,
                place,
            )
        }),
{
    let key = messages[k].key();
    let same = has_key(hash_key(), key);
    lemma_filter_of_start(messages, same, k);
    let place = messages.take(k).filter(same).len() as int;
    let paths = paths_with(messages, key);
    assert(paths.take(place) =~= paths_with(messages.take(k), key));
    place
}

/// Whether two files are found to be duplicates: both are put under the same file, and the later
/// one is reported.
pub open spec fn found_together(
    messages: Seq<FullHashMessage>,
    modes: spec_fn(Seq<u8>) -> u32,
    contents: Contents,
    p: Seq<u8>,
    q: Seq<u8>,
) -> bool {
    exists|i: int, j: int|
        {
            &&& 0 <= i < messages.len()
            &&& 0 <= j < messages.len()
            &&& i != j
            &&& (#[trigger] messages[i]).path@ == p
            &&& (#[trigger] messages[j]).path@ == q
            &&& messages[i].key() == messages[j].key()
            &&& original_of(messages, modes, contents, i) == original_of(
                messages,
                modes,
                contents,
                j,
            )
            &&& end_of(messages, modes, contents, if i < j { j } else { i }) is Duplicate
        }
}

/// Two messages of one size and digest, whose files have the same permissions and the same content,
/// are put under the same file, and the later one is reported.
proof fn lemma_later_is_reported(
    messages: Seq<FullHashMessage>,
    modes: spec_fn(Seq<u8>) -> u32,
    contents: Contents,
    i: int,
    j: int,
)
    requires
        0 <= i < j < messages.len(),
        messages[i].key() == messages[j].key(),
        are_twins(messages[i].path@, messages[j].path@, modes, contents),
        forall|a: Seq<u8>, b: Seq<u8>| #[trigger]
            same_path(a, b) ==> are_twins(a, b, modes, contents),
    ensures
        original_of(messages, modes, contents, i) == original_of(messages, modes, contents, j),
        end_of(messages, modes, contents, j) is Duplicate,
{
    let key = messages[i].key();
    let same = has_key(hash_key(), key);
    let a = lemma_place_among_its_kind(messages, modes, contents, i);
    let b = lemma_place_among_its_kind(messages, modes, contents, j);
    assert(a < b) by {
        let front = messages.take(j);
        assert(front[i] == messages[i]);
        assert(front.take(i) =~= messages.take(i));
        lemma_filter_of_start(front, same, i);
    }
    lemma_twins_share_an_original(paths_with(messages, key), modes, contents, a, b);
}

proof fn lemma_member_of_with_key(
    content: Contents,
    paths: Seq<Seq<u8>>,
    i: int,
    c: Seq<u8>,
)
    requires
        0 <= i < paths.len(),
        content(paths[i]) == c,
    ensures
        with_key(by_content(), records(content, paths), c).contains(record_of(content, paths[i])),
{
    let all = records(content, paths);
    assert(all[i] == record_of(content, paths[i]));
    all.lemma_filter_contains(has_key(by_content(), c), i);
}

proof fn lemma_two_members<T>(s: Seq<T>, a: T, b: T)
    requires
        s.contains(a),
        s.contains(b),
        a != b,
    ensures
        s.len() >= 2,
{
    let i = choose|i: int| 0 <= i < s.len() && s[i] == a;
    let j = choose|j: int| 0 <= j < s.len() && s[j] == b;
    assert(i != j);
}

/// The file under a path comes out at the end, if its content is that of another file.
proof fn lemma_comes_out(search: Search, p: Seq<u8>, q: Seq<u8>) -> (k: int)
    requires
        search.goes_well(),
        p != q,
        paths_by(size_path(), search.large()).contains(p),
        paths_by(size_path(), search.large()).contains(q),
        (search.content)(p) == (search.content)(q),
    ensures
        0 <= k < search.third_out().len(),
        search.third_out()[k].path@ == p,
        search.third_out()[k].key() == (
            (search.content)(p).len() as u64,
            content_digest((search.content)(p)),
        ),
{
    broadcast use vstd::seq_lib::group_to_multiset_ensures;

    let content = search.content;
    let c = content(p);
    let before = paths_by(size_path(), search.large());
    let after = paths_by(hash_path(), search.third_out());
    let i = choose|i: int| 0 <= i < before.len() && before[i] == p;
    let j = choose|j: int| 0 <= j < before.len() && before[j] == q;
    lemma_member_of_with_key(content, before, i, c);
    lemma_member_of_with_key(content, before, j, c);
    let came = with_key(by_content(), records(content, before), c);
    let left = with_key(by_content(), records(content, after), c);
    let r = record_of(content, p);
    lemma_two_members(came, r, record_of(content, q));
    lemma_no_twin_is_lost(search, c);
    let n = choose|n: int| 0 <= n < came.len() && came[n] == r;
    lemma_came_from(came, left, n);
    records(content, after).lemma_filter_contains_rev(has_key(by_content(), c), r);
    let k = choose|k: int|
        0 <= k < records(content, after).len() && records(content, after)[k] == r;
    assert(after[k] == p);
    search.lemma_third();
    assert(is_hash_message(content)(
        search.third_out()[k],
        record_of(content, search.third_out()[k].path@),
    ));
    k
}

/// No duplicate is missed: of files that are large enough, two with the same content and the same
/// permissions are put under the same file, and one of them is reported as a duplicate. This asks
/// that two spellings of a path lead to the same file.
pub proof fn lemma_no_duplicate_is_missed(
    search: Search,
    modes: spec_fn(Seq<u8>) -> u32,
    p: Seq<u8>,
    q: Seq<u8>,
)
    requires
        search.goes_well(),
        p != q,
        paths_by(size_path(), search.large()).contains(p),
        paths_by(size_path(), search.large()).contains(q),
        are_twins(p, q, modes, search.content),
        forall|a: Seq<u8>, b: Seq<u8>| #[trigger]
            same_path(a, b) ==> are_twins(a, b, modes, search.content),
    ensures
        found_together(search.third_out(), modes, search.content, p, q),
{
    let i = lemma_comes_out(search, p, q);
    let j = lemma_comes_out(search, q, p);
    let messages = search.third_out();
    assert(messages[i].path@ == p && messages[j].path@ == q);
    if i < j {
        lemma_later_is_reported(messages, modes, search.content, i, j);
    } else {
        lemma_later_is_reported(messages, modes, search.content, j, i);
    }
}

/// What is known of the files under some paths.
pub open spec fn with_info(
    files: Seq<FilePath>,
    info: spec_fn(Seq<u8>) -> Option<FileInfo>,
) -> Seq<(FilePath, Option<FileInfo>)> {
    files.map_values(|f: FilePath| (f, info(f@)))
}

/// Files with what is known of them, as messages to the first filter.
pub open spec fn as_sizes(files: Seq<(FilePath, FileInfo)>) -> Seq<FileSizeMessage> {
    files.map_values(|f: (FilePath, FileInfo)| FileSizeMessage { path: f.0, size: f.1.size })
}

/// Whether a path is a name of a file.
pub open spec fn names(
    info: spec_fn(Seq<u8>) -> Option<FileInfo>,
    path: Seq<u8>,
    file: Seq<u8>,
) -> bool {
    info(path) is Some && info(file) is Some && file_id(info(path)->0) == file_id(info(file)->0)
}

/// Whether a file is in the scope of a search: a way leads down from a root to a directory that
/// lists it, it is not excluded, it is chosen, and it is large enough.
pub open spec fn is_in_scope(
    tree: Tree,
    roots: Seq<FilePath>,
    chosen: spec_fn(FilePath) -> bool,
    info: spec_fn(Seq<u8>) -> Option<FileInfo>,
    minimum_size: u64,
    file: FilePath,
) -> bool {
    &&& exists|way: Seq<FilePath>| #[trigger]
        is_way_down(way, tree.excluded, tree.lists) && roots.contains(way[0]) && (tree.lists)(
            way.last(),
        ).contains((file, Some(EntryKind::File)))
    &&& !is_excluded(file@, tree.excluded)
    &&& chosen(file)
    &&& info(file@) matches Some(known) && known.size >= minimum_size
}

/// Under some name, a file in scope comes to the first filter.
proof fn lemma_in_scope_comes(
    tree: Tree,
    roots: Seq<FilePath>,
    steps: nat,
    chosen: spec_fn(FilePath) -> bool,
    info: spec_fn(Seq<u8>) -> Option<FileInfo>,
    search: Search,
    file: FilePath,
) -> (name: Seq<u8>)
    requires
        walk_after(roots, tree.excluded, tree.lists, steps).queue.len() == 0,
        search.sizes == as_sizes(
            inode_run(
                with_info(
                    walk_after(roots, tree.excluded, tree.lists, steps).found.filter(chosen),
                    info,
                ),
            ),
        ),
        is_in_scope(tree, roots, chosen, info, search.minimum_size, file),
        forall|a: Seq<u8>, b: Seq<u8>| #[trigger]
            names(info, a, b) ==> info(a)->0.size == info(b)->0.size,
    ensures
        names(info, name, file@),
        paths_by(size_path(), search.large()).contains(name),
{
    let found = walk_after(roots, tree.excluded, tree.lists, steps).found;
    let way = choose|way: Seq<FilePath>| #[trigger]
        is_way_down(way, tree.excluded, tree.lists) && roots.contains(way[0]) && (tree.lists)(
            way.last(),
        ).contains((file, Some(EntryKind::File)));
    lemma_walk_finds_every_file(roots, tree.excluded, tree.lists, steps, way, file);
    let at = choose|at: int| 0 <= at < found.len() && found[at] == file;
    found.lemma_filter_contains(chosen, at);
    let wanted = found.filter(chosen);
    let k = choose|k: int| 0 <= k < wanted.len() && wanted[k] == file;
    let input = with_info(wanted, info);
    assert(input[k] == (file, info(file@)));
    lemma_every_file_passes_once(input);
    let passed = inode_run(input);
    let j = choose|j: int|
        0 <= j < passed.len() && file_id((#[trigger] passed[j]).1) == file_id(info(file@)->0);
    let name = passed[j].0@;
    let e = (passed[j].0, Some(passed[j].1));
    assert(input.contains(e));
    let n = choose|n: int| 0 <= n < input.len() && input[n] == e;
    assert(input[n] == (wanted[n], info(wanted[n]@)));
    assert(info(name) == Some(passed[j].1));
    assert(names(info, name, file@));
    let message = search.sizes[j];
    assert(message.path@ == name && message.size >= search.minimum_size);
    search.sizes.lemma_filter_contains(at_least(search.minimum_size), j);
    let x = choose|x: int| 0 <= x < search.large().len() && search.large()[x] == message;
    assert(paths_by(size_path(), search.large())[x] == name);
    name
}

/// No duplicate in scope is missed: of two different files that are in scope and have the same
/// content and the same permissions, one is reported as a duplicate, and both are put under the same
/// file, each under one of its names. This asks that the walk has come to its end, that what is
/// found comes to the first filter as it is chosen and passes once, that all files can be read and
/// do not change, and that all names of a file and all spellings of a path lead to the same.
pub proof fn lemma_no_duplicate_in_scope_is_missed(
    tree: Tree,
    roots: Seq<FilePath>,
    steps: nat,
    chosen: spec_fn(FilePath) -> bool,
    info: spec_fn(Seq<u8>) -> Option<FileInfo>,
    search: Search,
    modes: spec_fn(Seq<u8>) -> u32,
    p: FilePath,
    q: FilePath,
)
    requires
        walk_after(roots, tree.excluded, tree.lists, steps).queue.len() == 0,
        search.sizes == as_sizes(
            inode_run(
                with_info(
                    walk_after(roots, tree.excluded, tree.lists, steps).found.filter(chosen),
                    info,
                ),
            ),
        ),
        search.goes_well(),
        is_in_scope(tree, roots, chosen, info, search.minimum_size, p),
        is_in_scope(tree, roots, chosen, info, search.minimum_size, q),
        !names(info, p@, q@),
        are_twins(p@, q@, modes, search.content),
        forall|a: Seq<u8>, b: Seq<u8>| #[trigger]
            names(info, a, b) ==> info(a)->0.size == info(b)->0.size && are_twins(
                a,
                b,
                modes,
                search.content,
            ),
        forall|a: Seq<u8>, b: Seq<u8>| #[trigger]
            same_path(a, b) ==> are_twins(a, b, modes, search.content),
    ensures
        exists|a: Seq<u8>, b: Seq<u8>|
            #![trigger names(info, a, p@), names(info, b, q@)]
            names(info, a, p@) && names(info, b, q@) && found_together(
                search.third_out(),
                modes,
                search.content,
                a,
                b,
            ),
{
    let a = lemma_in_scope_comes(tree, roots, steps, chosen, info, search, p);
    let b = lemma_in_scope_comes(tree, roots, steps, chosen, info, search, q);
    lemma_no_duplicate_is_missed(search, modes, a, b);
}

/// A gate lets nothing through more often than it came.
proof fn lemma_gate_adds_nothing<K, M>(key: spec_fn(M) -> K, input: Seq<M>, m: M)
    ensures
        gate_run(key, input).to_multiset().count(m) <= input.to_multiset().count(m),
{
    broadcast use vstd::seq_lib::group_to_multiset_ensures;

    let same = has_key(key, key(m));
    let out = gate_run(key, input);
    lemma_gate_passes_what_is_not_alone(key, input, key(m));
    lemma_count_in_filter(input, same, m);
    lemma_count_in_filter(out, same, m);
    assert(with_key(key, out, key(m)).to_multiset().count(m) == out.to_multiset().count(m));
    if with_key(key, input, key(m)).len() < 2 {
        assert(Seq::<M>::empty().to_multiset().count(m) == 0);
    }
}

/// Nothing comes to the comparison more often than it came to the first filter.
proof fn lemma_nothing_is_added(search: Search, r: FileRecord)
    requires
        search.goes_well(),
    ensures
        records(search.content, paths_by(hash_path(), search.third_out())).to_multiset().count(r)
            <= records(search.content, paths_by(size_path(), search.large())).to_multiset().count(
            r,
        ),
{
    search.lemma_first();
    search.lemma_second();
    search.lemma_third();
    let files = records(search.content, paths_by(size_path(), search.large()));
    let started = records(search.content, paths_by(start_path(), search.starts()));
    let hashed = records(search.content, paths_by(hash_path(), search.hashes()));
    lemma_gate_adds_nothing(by_size(), files, r);
    lemma_gate_adds_nothing(by_start(search.read_size), started, r);
    lemma_gate_adds_nothing(by_digest_of_all(), hashed, r);
}

/// The file that comes to the comparison under a path has come to the first filter.
proof fn lemma_came_to_the_first_filter(search: Search, k: int)
    requires
        search.goes_well(),
        0 <= k < search.third_out().len(),
    ensures
        paths_by(size_path(), search.large()).contains(search.third_out()[k].path@),
{
    broadcast use vstd::seq_lib::group_to_multiset_ensures;

    let p = search.third_out()[k].path@;
    let r = record_of(search.content, p);
    let after = records(search.content, paths_by(hash_path(), search.third_out()));
    let before = records(search.content, paths_by(size_path(), search.large()));
    assert(after[k] == r);
    assert(after.contains(r));
    lemma_nothing_is_added(search, r);
    assert(before.contains(r));
    let i = choose|i: int| 0 <= i < before.len() && before[i] == r;
    assert(paths_by(size_path(), search.large())[i] == p);
}

/// Two members that are equal are counted twice.
proof fn lemma_counted_twice<T>(s: Seq<T>, i: int, j: int)
    requires
        0 <= i < j < s.len(),
        s[i] == s[j],
    ensures
        s.to_multiset().count(s[i]) >= 2,
{
    broadcast use vstd::seq_lib::group_to_multiset_ensures;

    let rest = s.remove(j);
    vstd::seq_lib::to_multiset_remove(s, j);
    assert(rest[i] == s[i]);
    assert(rest.contains(s[i]));
    assert(rest.to_multiset().count(s[i]) > 0);
    assert(s.contains(s[j]));
    assert(s.to_multiset().count(s[j]) > 0);
    assert(rest.to_multiset() == s.to_multiset().remove(s[j]));
    assert(s.to_multiset().remove(s[j]).count(s[j]) == s.to_multiset().count(s[j]) - 1);
}

/// What comes to the first filter comes from the walk: it is found and chosen, is known, and no two
/// that come are names of one file.
proof fn lemma_comes_from_the_walk(
    tree: Tree,
    roots: Seq<FilePath>,
    steps: nat,
    chosen: spec_fn(FilePath) -> bool,
    info: spec_fn(Seq<u8>) -> Option<FileInfo>,
    search: Search,
)
    requires
        search.sizes == as_sizes(
            inode_run(
                with_info(
                    walk_after(roots, tree.excluded, tree.lists, steps).found.filter(chosen),
                    info,
                ),
            ),
        ),
    ensures
        forall|i: int|
            0 <= i < search.sizes.len() ==> {
                let m = #[trigger] search.sizes[i];
                &&& walk_after(roots, tree.excluded, tree.lists, steps).found.contains(m.path)
                &&& chosen(m.path)
                &&& info(m.path@) matches Some(known) && known.size == m.size
            },
        forall|i: int, j: int|
            0 <= i < j < search.sizes.len() ==> !names(
                info,
                (#[trigger] search.sizes[i]).path@,
                (#[trigger] search.sizes[j]).path@,
            ),
{
    let found = walk_after(roots, tree.excluded, tree.lists, steps).found;
    let wanted = found.filter(chosen);
    let input = with_info(wanted, info);
    let passed = inode_run(input);
    lemma_every_file_passes_once(input);
    assert forall|i: int| 0 <= i < search.sizes.len() implies {
        let m = #[trigger] search.sizes[i];
        &&& found.contains(m.path)
        &&& chosen(m.path)
        &&& info(m.path@) == Some(passed[i].1)
        &&& passed[i].1.size == m.size
    } by {
        let e = (passed[i].0, Some(passed[i].1));
        assert(input.contains(e));
        let n = choose|n: int| 0 <= n < input.len() && input[n] == e;
        assert(input[n] == (wanted[n], info(wanted[n]@)));
        assert(wanted.contains(wanted[n]));
        found.lemma_filter_contains_rev(chosen, wanted[n]);
        assert(wanted.all(chosen)) by {
            found.lemma_filter_pred(chosen, n);
            assert forall|x: int| 0 <= x < wanted.len() implies chosen(#[trigger] wanted[x]) by {
                found.lemma_filter_pred(chosen, x);
            }
        }
        assert(chosen(wanted[n]));
    }
    assert forall|i: int, j: int| 0 <= i < j < search.sizes.len() implies !names(
        info,
        (#[trigger] search.sizes[i]).path@,
        (#[trigger] search.sizes[j]).path@,
    ) by {
        assert(info(search.sizes[i].path@) == Some(passed[i].1));
        assert(info(search.sizes[j].path@) == Some(passed[j].1));
        assert(file_id(passed[i].1) != file_id(passed[j].1));
    }
}

/// No path comes to the first filter twice.
proof fn lemma_large_paths_differ(search: Search, r: FileRecord)
    requires
        forall|i: int, j: int|
            0 <= i < j < search.sizes.len() ==> (#[trigger] search.sizes[i]).path@ != (
            #[trigger] search.sizes[j]).path@,
    ensures
        records(search.content, paths_by(size_path(), search.large())).to_multiset().count(r) <= 1,
{
    broadcast use vstd::seq_lib::group_to_multiset_ensures;

    let large = search.large();
    let sizes = search.sizes;
    let p = at_least(search.minimum_size);
    assert(sizes.no_duplicates());
    sizes.lemma_multiset_has_no_duplicates();
    assert forall|m: FileSizeMessage| large.to_multiset().contains(m) implies
        large.to_multiset().count(m) == 1 by {
        lemma_count_in_filter(sizes, p, m);
        assert(sizes.to_multiset().contains(m));
    }
    large.lemma_multiset_has_no_duplicates_conv();
    let all = records(search.content, paths_by(size_path(), large));
    assert forall|i: int, j: int| 0 <= i < all.len() && 0 <= j < all.len() && i != j implies all[i]
        != all[j] by {
        assert(large.contains(large[i]) && large.contains(large[j]));
        sizes.lemma_filter_contains_rev(p, large[i]);
        sizes.lemma_filter_contains_rev(p, large[j]);
        let n = choose|n: int| 0 <= n < sizes.len() && sizes[n] == large[i];
        let m = choose|m: int| 0 <= m < sizes.len() && sizes[m] == large[j];
        assert(n != m);
        assert(all[i].path == sizes[n].path@);
        assert(all[j].path == sizes[m].path@);
    }
    all.lemma_multiset_has_no_duplicates();
    if !all.to_multiset().contains(r) {
        assert(all.to_multiset().count(r) == 0);
    }
}

/// A file that is in the scope of a search, by a path of it.
pub open spec fn path_in_scope(
    tree: Tree,
    roots: Seq<FilePath>,
    chosen: spec_fn(FilePath) -> bool,
    info: spec_fn(Seq<u8>) -> Option<FileInfo>,
    minimum_size: u64,
    path: Seq<u8>,
) -> bool {
    exists|file: FilePath|
        file@ == path && #[trigger] is_in_scope(tree, roots, chosen, info, minimum_size, file)
}

proof fn lemma_message_in_scope(
    tree: Tree,
    roots: Seq<FilePath>,
    steps: nat,
    chosen: spec_fn(FilePath) -> bool,
    info: spec_fn(Seq<u8>) -> Option<FileInfo>,
    search: Search,
    k: int,
) -> (i: int)
    requires
        search.sizes == as_sizes(
            inode_run(
                with_info(
                    walk_after(roots, tree.excluded, tree.lists, steps).found.filter(chosen),
                    info,
                ),
            ),
        ),
        search.goes_well(),
        0 <= k < search.third_out().len(),
    ensures
        0 <= i < search.sizes.len(),
        search.sizes[i].path@ == search.third_out()[k].path@,
        path_in_scope(
            tree,
            roots,
            chosen,
            info,
            search.minimum_size,
            search.third_out()[k].path@,
        ),
{
    let p = search.third_out()[k].path@;
    let large = search.large();
    lemma_came_to_the_first_filter(search, k);
    lemma_comes_from_the_walk(tree, roots, steps, chosen, info, search);
    let n = choose|n: int|
        0 <= n < paths_by(size_path(), large).len() && paths_by(size_path(), large)[n] == p;
    let m = large[n];
    assert(large.contains(m));
    search.sizes.lemma_filter_contains_rev(at_least(search.minimum_size), m);
    search.sizes.lemma_filter_pred(at_least(search.minimum_size), n);
    let i = choose|i: int| 0 <= i < search.sizes.len() && search.sizes[i] == m;
    let file = m.path;
    lemma_walk_finds_nothing_else(roots, tree.excluded, tree.lists, steps, file);
    let d = choose|d: FilePath|
        is_reached(roots, tree.excluded, tree.lists, d) && #[trigger] (tree.lists)(d).contains(
            (file, Some(EntryKind::File)),
        );
    let way = choose|way: Seq<FilePath>| #[trigger]
        is_way_down(way, tree.excluded, tree.lists) && roots.contains(way[0]) && way.last() == d;
    assert(is_way_down(way, tree.excluded, tree.lists) && roots.contains(way[0]) && (tree.lists)(
        way.last(),
    ).contains((file, Some(EntryKind::File))));
    assert(search.sizes[i].path == file);
    assert(is_in_scope(tree, roots, chosen, info, search.minimum_size, file));
    assert(file@ == p);
    i
}

/// Nothing but a duplicate in scope is reported: a file that is reported as a duplicate of another
/// has its permissions and its content, the two are not names of one file, and both are in scope.
/// This asks the same as that no duplicate in scope is missed.
pub proof fn lemma_only_duplicates_in_scope_are_reported(
    tree: Tree,
    roots: Seq<FilePath>,
    steps: nat,
    chosen: spec_fn(FilePath) -> bool,
    info: spec_fn(Seq<u8>) -> Option<FileInfo>,
    search: Search,
    modes: spec_fn(Seq<u8>) -> u32,
    k: int,
)
    requires
        walk_after(roots, tree.excluded, tree.lists, steps).queue.len() == 0,
        search.sizes == as_sizes(
            inode_run(
                with_info(
                    walk_after(roots, tree.excluded, tree.lists, steps).found.filter(chosen),
                    info,
                ),
            ),
        ),
        search.goes_well(),
        forall|a: Seq<u8>, b: Seq<u8>| #[trigger]
            same_path(a, b) ==> are_twins(a, b, modes, search.content),
        0 <= k < search.third_out().len(),
        end_of(search.third_out(), modes, search.content, k) is Duplicate,
    ensures
        ({
            let original = original_of(search.third_out(), modes, search.content, k);
            let duplicate = search.third_out()[k].path@;
            &&& are_twins(original, duplicate, modes, search.content)
            &&& !names(info, original, duplicate)
            &&& path_in_scope(tree, roots, chosen, info, search.minimum_size, original)
            &&& path_in_scope(tree, roots, chosen, info, search.minimum_size, duplicate)
        }),
{
    let messages = search.third_out();
    let content = search.content;
    let key = messages[k].key();
    let front = messages.take(k);
    let paths = paths_with(messages, key);
    let place = lemma_place_among_its_kind(messages, modes, content, k);
    let original = original_of(messages, modes, content, k);
    lemma_reported_came_before(paths, modes, content, place);
    let earlier = paths_with(front, key);
    assert(paths.take(place) == earlier);
    let n = choose|n: int| 0 <= n < earlier.len() && earlier[n] == original;
    let kind = with_key(hash_key(), front, key);
    assert(kind.contains(kind[n]));
    front.lemma_filter_contains_rev(has_key(hash_key(), key), kind[n]);
    let i = choose|i: int| 0 <= i < front.len() && front[i] == kind[n];
    assert(messages[i].path@ == original);
    let a = lemma_message_in_scope(tree, roots, steps, chosen, info, search, i);
    let b = lemma_message_in_scope(tree, roots, steps, chosen, info, search, k);
    lemma_comes_from_the_walk(tree, roots, steps, chosen, info, search);
    assert forall|x: int, y: int| 0 <= x < y < search.sizes.len() implies (
    #[trigger] search.sizes[x]).path@ != (#[trigger] search.sizes[y]).path@ by {
        assert(!names(info, search.sizes[x].path@, search.sizes[y].path@));
    }
    if a == b {
        let r = record_of(content, original);
        let after = records(content, paths_by(hash_path(), messages));
        assert(after[i] == r && after[k] == r);
        lemma_counted_twice(after, i, k);
        lemma_nothing_is_added(search, r);
        lemma_large_paths_differ(search, r);
    } else if a < b {
        assert(!names(info, search.sizes[a].path@, search.sizes[b].path@));
    } else {
        assert(!names(info, search.sizes[b].path@, search.sizes[a].path@));
    }
}

} // verus!
