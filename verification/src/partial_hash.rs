//! Reading the start of files, and holding back files whose start no other file has.

use crate::digest::{content_digest, Digest, HASH_LIMIT};
use crate::file_discovery_actors::FileSizeMessage;
use crate::gate::{gate_next, gate_out};
use crate::path::FilePath;
use crate::status::StatusUpdate;
use std::collections::BTreeMap;
use vstd::prelude::*;
use vstd::slice::slice_to_vec;

verus! {

broadcast use {
    vstd::std_specs::btree::group_btree_axioms,
    vstd::laws_cmp::group_laws_cmp,
};

/// A file and the bytes that have been read from its start.
#[derive(Debug, PartialEq, Eq)]
pub struct PartialHashMessage {
    pub file_size: u64,
    /// What has been read; its digest is what the file is known by.
    pub head: Vec<u8>,
    pub path: FilePath,
}

impl PartialHashMessage {
    /// What the file is told from others by: its size and the digest of what has been read.
    pub open spec fn key(self) -> (u64, Digest) {
        (self.file_size, content_digest(self.head@))
    }

    /// Whether the whole file has been read.
    pub open spec fn spec_is_complete(self) -> bool {
        self.head@.len() == self.file_size as usize
    }

    /// How many bytes have been read.
    pub fn bytes_read(&self) -> (count: usize)
        ensures
            count == self.head@.len(),
    {
        self.head.len()
    }

    /// Whether the whole file has been read, by the size that it had when it was found.
    pub fn is_complete(&self) -> (complete: bool)
        ensures
            complete == self.spec_is_complete(),
            complete == (self.head@.len() == self.file_size as usize),
    {
        self.head.len() == #[verifier::truncate] (self.file_size as usize)
    }
}

impl Clone for PartialHashMessage {
    fn clone(&self) -> (copy: PartialHashMessage)
        ensures
            copy.file_size == self.file_size,
            copy.head@ == self.head@,
            copy.path@ == self.path@,
    {
        PartialHashMessage {
            file_size: self.file_size,
            head: slice_to_vec(self.head.as_slice()),
            path: self.path.clone(),
        }
    }
}

/// How far the reading of the start of a file has come.
pub struct ReadProgress {
    pub head: Seq<u8>,
    pub remaining: nat,
    pub at_end: bool,
}

/// How many bytes are asked for next, if any: no more than are wanted still, and no more than a
/// block. Nothing is asked for once a read has given nothing.
pub open spec fn wanted(progress: ReadProgress, block_size: nat) -> Option<nat> {
    if progress.at_end || progress.remaining == 0 {
        None
    } else if progress.remaining <= block_size {
        Some(progress.remaining)
    } else {
        Some(block_size)
    }
}

/// How far the reading has come when a read has given `chunk`.
pub open spec fn absorbed(progress: ReadProgress, chunk: Seq<u8>) -> ReadProgress {
    ReadProgress {
        head: progress.head + chunk,
        remaining: (progress.remaining - chunk.len()) as nat,
        at_end: chunk.len() == 0,
    }
}

/// The reading of the start of a file, block by block.
pub struct PartialRead {
    pub block_size: usize,
    pub remaining: usize,
    pub at_end: bool,
    pub message: PartialHashMessage,
}

impl View for PartialRead {
    type V = ReadProgress;

    open spec fn view(&self) -> ReadProgress {
        ReadProgress {
            head: self.message.head@,
            remaining: self.remaining as nat,
            at_end: self.at_end,
        }
    }
}

impl PartialRead {
    /// Begins to read the first `read_size` bytes of a file.
    pub fn start(file: FileSizeMessage, read_size: usize, block_size: usize) -> (read: PartialRead)
        ensures
            read@ == (ReadProgress { head: seq![], remaining: read_size as nat, at_end: false }),
            read.block_size == block_size,
            read.remaining == read_size,
            !read.at_end,
            read.message.head@.len() == 0,
            read.message.file_size == file.size,
            read.message.path == file.path,
    {
        let read = PartialRead {
            block_size,
            remaining: read_size,
            at_end: false,
            message: PartialHashMessage { file_size: file.size, head: Vec::new(), path: file.path },
        };
        assert(read@.head =~= seq![]);
        read
    }

    /// How many bytes to read next; `None` when the reading is done.
    pub fn next_request(&self) -> (request: Option<usize>)
        ensures
            match request {
                Some(n) => wanted(self@, self.block_size as nat) == Some(n as nat),
                None => wanted(self@, self.block_size as nat) is None,
            },
            request is None <==> self.at_end || self.remaining == 0,
            request matches Some(n) ==> n == if self.remaining <= self.block_size {
                self.remaining
            } else {
                self.block_size
            },
    {
        if self.at_end || self.remaining == 0 {
            None
        } else if self.remaining <= self.block_size {
            Some(self.remaining)
        } else {
            Some(self.block_size)
        }
    }

    /// Takes what a read has given.
    pub fn absorb(&mut self, chunk: &[u8])
        requires
            wanted(old(self)@, old(self).block_size as nat) matches Some(n) && chunk@.len() <= n,
        ensures
            final(self)@ == absorbed(old(self)@, chunk@),
            final(self).message.head@ == old(self).message.head@ + chunk@,
            final(self).remaining == old(self).remaining - chunk@.len(),
            final(self).at_end == (chunk@.len() == 0),
            final(self).block_size == old(self).block_size,
            final(self).message.file_size == old(self).message.file_size,
            final(self).message.path == old(self).message.path,
    {
        let mut bytes = slice_to_vec(chunk);
        self.remaining = self.remaining - chunk.len();
        self.at_end = chunk.len() == 0;
        self.message.head.append(&mut bytes);
    }

    /// The file with what has been read of it.
    pub fn finish(self) -> (message: PartialHashMessage)
        ensures
            message == self.message,
    {
        self.message
    }
}

/// How far the reading of a file has come after some reads.
pub open spec fn read_all(read_size: nat, chunks: Seq<Seq<u8>>) -> ReadProgress
    decreases chunks.len(),
{
    if chunks.len() == 0 {
        ReadProgress { head: seq![], remaining: read_size, at_end: false }
    } else {
        absorbed(read_all(read_size, chunks.drop_last()), chunks.last())
    }
}

/// Whether reads can come from a file with the given content: each was asked for, gave no more
/// than was asked for, gave what comes next in the file, and gave nothing only at its end.
pub open spec fn reads_of(
    content: Seq<u8>,
    read_size: nat,
    block_size: nat,
    chunks: Seq<Seq<u8>>,
) -> bool
    decreases chunks.len(),
{
    chunks.len() == 0 || {
        let before = read_all(read_size, chunks.drop_last());
        let chunk = chunks.last();
        let place = before.head.len() as int;
        &&& reads_of(content, read_size, block_size, chunks.drop_last())
        &&& wanted(before, block_size) matches Some(n) && chunk.len() <= n
        &&& place + chunk.len() <= content.len()
        &&& chunk == content.subrange(place, place + chunk.len())
        &&& chunk.len() == 0 ==> place == content.len()
    }
}

/// However a file is cut into reads, when nothing more is asked for, what has been read is its
/// first `read_size` bytes, or all of it where it is shorter.
pub proof fn lemma_reading_gives_the_start(
    content: Seq<u8>,
    read_size: nat,
    block_size: nat,
    chunks: Seq<Seq<u8>>,
)
    requires
        reads_of(content, read_size, block_size, chunks),
        wanted(read_all(read_size, chunks), block_size) is None,
    ensures
        read_all(read_size, chunks).head == content.take(
            if read_size <= content.len() {
                read_size as int
            } else {
                content.len() as int
            },
        ),
{
    lemma_reads(content, read_size, block_size, chunks);
}

proof fn lemma_reads(
    content: Seq<u8>,
    read_size: nat,
    block_size: nat,
    chunks: Seq<Seq<u8>>,
)
    requires
        reads_of(content, read_size, block_size, chunks),
    ensures
        ({
            let read = read_all(read_size, chunks);
            &&& read.head.len() <= content.len()
            &&& read.head == content.take(read.head.len() as int)
            &&& read.head.len() + read.remaining == read_size
            &&& read.at_end ==> read.head.len() == content.len()
        }),
    decreases chunks.len(),
{
    if chunks.len() == 0 {
        assert(content.take(0) =~= seq![]);
    } else {
        lemma_reads(content, read_size, block_size, chunks.drop_last());
        let before = read_all(read_size, chunks.drop_last());
        let chunk = chunks.last();
        let place = before.head.len() as int;
        assert(content.take(place) + content.subrange(place, place + chunk.len()) =~= content.take(
            place + chunk.len(),
        ));
    }
}

/// How the tasks that read files are collected after another one was started.
#[derive(Clone, Copy, Debug, PartialEq, Eq, Structural)]
pub enum Collect {
    /// Wait for all of them.
    All,
    /// Wait for none; take those that are done, up to the first that is not.
    Ready,
}

/// How a task that reads a file has ended.
pub enum TaskOutcome {
    /// The start of the file was read.
    Hashed(PartialHashMessage),
    /// The file could not be opened.
    Unreadable,
    /// The task did not come to an end of its own.
    Failed,
}

/// How tasks are collected when one has been started and `running` run.
pub open spec fn collect_after_start(max_tasks: usize, running: nat) -> Collect {
    if running >= max_tasks {
        Collect::All
    } else {
        Collect::Ready
    }
}

/// How tasks are collected when no more files come and `running` tasks run: all of them are waited
/// for, if there are any.
pub open spec fn collect_at_end(running: nat) -> Option<Collect> {
    if running > 0 {
        Some(Collect::All)
    } else {
        None
    }
}

/// What is handed on of a task.
pub open spec fn hashed_message(outcome: TaskOutcome) -> Option<PartialHashMessage> {
    match outcome {
        TaskOutcome::Hashed(message) => Some(message),
        _ => None,
    }
}

/// Whether another task is collected after one, by how it ended, with `running` left; `None` where
/// none was done.
pub open spec fn collects_on(collect: Collect, outcome: Option<TaskOutcome>, running: nat) -> bool {
    match collect {
        Collect::All => running > 0,
        Collect::Ready => outcome matches Some(TaskOutcome::Hashed(_)),
    }
}

/// Starts the tasks that read the start of files, and counts those that are done.
pub struct PartialHasher {
    pub read_size: usize,
    /// From this many running tasks on, all of them are waited for.
    pub max_tasks: usize,
    /// How many tasks have been counted.
    pub counter: usize,
    /// How many had been counted when the last task was started.
    pub last_count: usize,
}

impl PartialHasher {
    pub fn new(read_size: usize, max_tasks: usize) -> (hasher: PartialHasher)
        ensures
            hasher == (PartialHasher { read_size, max_tasks, counter: 0, last_count: 0 }),
    {
        PartialHasher { read_size, max_tasks, counter: 0, last_count: 0 }
    }

    /// Decides how tasks are collected, when one has been started and `running` run.
    pub fn started(&mut self, running: usize) -> (collect: Collect)
        ensures
            *final(self) == (PartialHasher { last_count: old(self).counter, ..*old(self) }),
            collect == collect_after_start(old(self).max_tasks, running as nat),
            collect == if running >= old(self).max_tasks {
                Collect::All
            } else {
                Collect::Ready
            },
    {
        self.last_count = self.counter;
        if running >= self.max_tasks {
            Collect::All
        } else {
            Collect::Ready
        }
    }

    /// Decides how tasks are collected, when no more files come and `running` tasks run; `None`
    /// when the work is done.
    pub fn input_ended(&mut self, running: usize) -> (collect: Option<Collect>)
        ensures
            *final(self) == (PartialHasher { last_count: old(self).counter, ..*old(self) }),
            collect == collect_at_end(running as nat),
            collect == if running > 0 {
                Some(Collect::All)
            } else {
                None
            },
    {
        self.last_count = self.counter;
        if running > 0 {
            Some(Collect::All)
        } else {
            None
        }
    }

    /// Whether a task counts, by how it ended; `None` where none was done.
    pub open spec fn counts(collect: Collect, outcome: Option<TaskOutcome>) -> bool {
        match collect {
            Collect::All => true,
            Collect::Ready => outcome matches Some(TaskOutcome::Hashed(_)),
        }
    }

    /// Takes the outcome of a task, with `running` tasks left. Gives what is handed on, and
    /// whether another task is collected before the work goes on.
    pub fn collected(
        &mut self,
        collect: Collect,
        outcome: Option<TaskOutcome>,
        running: usize,
    ) -> (result: (Option<PartialHashMessage>, bool))
        requires
            PartialHasher::counts(collect, outcome) ==> old(self).counter < usize::MAX,
        ensures
            final(self).read_size == old(self).read_size,
            final(self).max_tasks == old(self).max_tasks,
            final(self).last_count == old(self).last_count,
            final(self).counter == old(self).counter + if PartialHasher::counts(collect, outcome) {
                1int
            } else {
                0int
            },
            result.0 == match outcome {
                Some(outcome) => hashed_message(outcome),
                None => None,
            },
            result.1 == collects_on(collect, outcome, running as nat),
            final(self).counter == old(self).counter + if collect == Collect::All || (
            outcome matches Some(TaskOutcome::Hashed(_))) {
                1int
            } else {
                0int
            },
            result.0 == match outcome {
                Some(TaskOutcome::Hashed(message)) => Some(message),
                _ => None,
            },
            result.1 == match collect {
                Collect::All => running > 0,
                Collect::Ready => outcome matches Some(TaskOutcome::Hashed(_)),
            },
    {
        match collect {
            Collect::All => {
                self.counter = self.counter + 1;
                match outcome {
                    Some(TaskOutcome::Hashed(message)) => (Some(message), running > 0),
                    _ => (None, running > 0),
                }
            },
            Collect::Ready => match outcome {
                Some(TaskOutcome::Hashed(message)) => {
                    self.counter = self.counter + 1;
                    (Some(message), true)
                },
                _ => (None, false),
            },
        }
    }

    /// What is reported when the tasks have been collected: how many were counted since the last
    /// one was started.
    pub fn report(&self) -> (update: StatusUpdate)
        requires
            self.last_count <= self.counter,
        ensures
            update == StatusUpdate::PartialHash((self.counter - self.last_count) as usize),
    {
        StatusUpdate::PartialHash(self.counter - self.last_count)
    }
}

/// Lets files through that have the size and the start of another file.
pub struct PartialHashFilter {
    /// For every size and digest met so far, the first file with them while it is the only one.
    pub seen: BTreeMap<(u64, u128, u128), Option<PartialHashMessage>>,
}

impl PartialHashFilter {
    /// The messages that are held back, by size and digest.
    pub open spec fn held(&self) -> Map<(u64, Digest), Option<PartialHashMessage>> {
        Map::new(
            |k: (u64, Digest)| self.seen@.contains_key((k.0, k.1.first, k.1.second)),
            |k: (u64, Digest)| self.seen@[(k.0, k.1.first, k.1.second)],
        )
    }

    pub fn new() -> (filter: PartialHashFilter)
        ensures
            filter.held() == Map::<(u64, Digest), Option<PartialHashMessage>>::empty(),
    {
        let filter = PartialHashFilter { seen: BTreeMap::new() };
        assert(filter.held() =~= Map::empty());
        filter
    }

    /// Deals with a file, given the digest of what has been read of it; gives what passes, in
    /// order.
    pub fn receive_hashed(&mut self, message: PartialHashMessage, hash: Digest) -> (passed: Vec<
        PartialHashMessage,
    >)
        ensures
            passed@ == gate_out(old(self).held(), (message.file_size, hash), message),
            final(self).held() == gate_next(old(self).held(), (message.file_size, hash), message),
            ({
                let held = old(self).held();
                let key = (message.file_size, hash);
                if !held.contains_key(key) {
                    passed@.len() == 0 && final(self).held() == held.insert(key, Some(message))
                } else {
                    &&& passed@ == match held[key] {
                        Some(first) => seq![first, message],
                        None => seq![message],
                    }
                    &&& final(self).held() == held.insert(key, None)
                }
            }),
    {
        let mut passed: Vec<PartialHashMessage> = Vec::new();
        let key = (message.file_size, hash.first, hash.second);
        let ghost k = (message.file_size, hash);
        let ghost m = message;
        match self.seen.remove(&key) {
            Some(held) => {
                if let Some(first) = held {
                    passed.push(first);
                }
                passed.push(message);
                self.seen.insert(key, None);
            },
            None => {
                self.seen.insert(key, Some(message));
            },
        }
        assert(passed@ =~= gate_out(old(self).held(), k, m));
        let ghost next = gate_next(old(self).held(), k, m);
        assert forall|other: (u64, Digest)|
            self.held().contains_key(other) <==> #[trigger] next.contains_key(other) by {
            assert((other.0, other.1.first, other.1.second) == key <==> other == k);
        }
        assert forall|other: (u64, Digest)| #[trigger] next.contains_key(other) implies next[other]
            == self.held()[other] by {
            assert((other.0, other.1.first, other.1.second) == key <==> other == k);
        }
        assert(self.held() =~= next);
        passed
    }

    /// Deals with a file; gives what passes, in order.
    pub fn receive(&mut self, message: PartialHashMessage) -> (passed: Vec<PartialHashMessage>)
        requires
            message.head@.len() <= HASH_LIMIT,
        ensures
            passed@ == gate_out(old(self).held(), message.key(), message),
            final(self).held() == gate_next(old(self).held(), message.key(), message),
            ({
                let held = old(self).held();
                let key = (message.file_size, content_digest(message.head@));
                if !held.contains_key(key) {
                    passed@.len() == 0 && final(self).held() == held.insert(key, Some(message))
                } else {
                    &&& passed@ == match held[key] {
                        Some(first) => seq![first, message],
                        None => seq![message],
                    }
                    &&& final(self).held() == held.insert(key, None)
                }
            }),
    {
        let hash = Digest::of(message.head.as_slice());
        self.receive_hashed(message, hash)
    }
}

} // verus!
