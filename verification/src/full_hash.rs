//! Digests of whole files, and holding back files whose digest no other file has.

use crate::digest::{content_digest, sha256, Digest, HASH_LIMIT};
use crate::gate::{gate_next, gate_out};
use crate::partial_hash::PartialHashMessage;
use crate::path::FilePath;
use crate::status::StatusUpdate;
use std::collections::BTreeMap;
use vstd::prelude::*;
use vstd::slice::slice_subrange;

verus! {

broadcast use {
    vstd::std_specs::btree::group_btree_axioms,
    vstd::laws_cmp::group_laws_cmp,
};

/// A file and the digest of all of it.
#[derive(Debug, PartialEq, Eq)]
pub struct FullHashMessage {
    pub file_size: u64,
    pub hash: Digest,
    pub path: FilePath,
}

/// What is hashed of a file: what was read from its start and, unless that is the whole file, what
/// follows in its content.
pub open spec fn hashed_bytes(message: PartialHashMessage, content: Seq<u8>) -> Seq<u8> {
    if message.spec_is_complete() {
        message.head@
    } else {
        message.head@ + content.skip(message.head@.len() as int)
    }
}

impl FullHashMessage {
    /// What the file is told from others by: its size and its digest.
    pub open spec fn key(self) -> (u64, Digest) {
        (self.file_size, self.hash)
    }

    /// Hashes what has not been hashed yet. `content` is the content of the file; nothing is
    /// looked at in it where the whole file has been read already.
    pub fn from_partial_hash(message: PartialHashMessage, content: &[u8]) -> (full: FullHashMessage)
        requires
            message.spec_is_complete() || message.head@.len() <= content@.len(),
            hashed_bytes(message, content@).len() <= HASH_LIMIT,
        ensures
            full.file_size == message.file_size,
            full.path == message.path,
            full.hash == content_digest(hashed_bytes(message, content@)),
            full.hash@ == sha256(hashed_bytes(message, content@)),
            full.hash@ == sha256(
                if message.head@.len() == message.file_size as usize {
                    message.head@
                } else {
                    message.head@ + content@.skip(message.head@.len() as int)
                },
            ),
    {
        let hash = if message.is_complete() {
            Digest::of(message.head.as_slice())
        } else {
            let rest = slice_subrange(content, message.head.len(), content.len());
            assert(rest@ =~= content@.skip(message.head@.len() as int));
            Digest::of_parts(message.head.as_slice(), rest)
        };
        FullHashMessage { file_size: message.file_size, hash, path: message.path }
    }
}

/// The digest of a file is that of its content, whether or not its start was all that had to be
/// read. So files with the same content have the same digest, however much of each was read
/// before.
pub proof fn lemma_digest_of_whole_file(message: PartialHashMessage, content: Seq<u8>)
    requires
        message.file_size == content.len(),
        message.file_size <= usize::MAX,
        message.head@.len() <= content.len(),
        message.head@ == content.take(message.head@.len() as int),
    ensures
        hashed_bytes(message, content) == content,
{
    if message.spec_is_complete() {
        assert(message.head@ =~= content);
    } else {
        assert(message.head@ + content.skip(message.head@.len() as int) =~= content);
    }
}

/// How the tasks that hash files are collected.
#[derive(Clone, Copy, Debug, PartialEq, Eq, Structural)]
pub enum CollectFull {
    /// Wait for one.
    One,
    /// Wait for none; take those that are done.
    Ready,
    /// Wait for all of them.
    All,
}

/// How tasks are collected when one has been started and `running` run.
pub open spec fn collect_after_full_start(max_tasks: usize, running: nat) -> CollectFull {
    if running > max_tasks {
        CollectFull::One
    } else {
        CollectFull::Ready
    }
}

/// How tasks are collected when no more files come and `running` tasks run: all of them are waited
/// for, if there are any.
pub open spec fn collect_at_full_end(running: nat) -> Option<CollectFull> {
    if running > 0 {
        Some(CollectFull::All)
    } else {
        None
    }
}

/// Whether another task is collected after one, by what it gave, with `running` left; `None` where
/// none was done, or where it did not come to an end of its own.
pub open spec fn collects_full_on(
    collect: CollectFull,
    outcome: Option<FullHashMessage>,
    running: nat,
) -> bool {
    match collect {
        CollectFull::One => false,
        CollectFull::Ready => outcome is Some,
        CollectFull::All => running > 0,
    }
}

/// Starts the tasks that hash whole files.
pub struct FullHasher {
    /// With more running tasks than this, one is waited for before another is started.
    pub max_tasks: usize,
}

impl FullHasher {
    /// Decides how tasks are collected, when one has been started and `running` run.
    pub fn started(&self, running: usize) -> (result: (CollectFull, StatusUpdate))
        ensures
            result.0 == collect_after_full_start(self.max_tasks, running as nat),
            result.0 == if running > self.max_tasks {
                CollectFull::One
            } else {
                CollectFull::Ready
            },
            result.1 == StatusUpdate::FullHash(1),
    {
        let collect = if running > self.max_tasks {
            CollectFull::One
        } else {
            CollectFull::Ready
        };
        (collect, StatusUpdate::FullHash(1))
    }

    /// Decides how tasks are collected, when no more files come and `running` tasks run; `None`
    /// when the work is done.
    pub fn input_ended(&self, running: usize) -> (collect: Option<CollectFull>)
        ensures
            collect == collect_at_full_end(running as nat),
            collect == if running > 0 {
                Some(CollectFull::All)
            } else {
                None
            },
    {
        if running > 0 {
            Some(CollectFull::All)
        } else {
            None
        }
    }

    /// Takes the outcome of a task, with `running` tasks left; `None` where none was done, or where
    /// it did not come to an end of its own. Gives what is handed on, and whether another task is
    /// collected before the work goes on.
    pub fn collected(
        &self,
        collect: CollectFull,
        outcome: Option<FullHashMessage>,
        running: usize,
    ) -> (result: (Option<FullHashMessage>, bool))
        ensures
            result.0 == outcome,
            result.1 == collects_full_on(collect, outcome, running as nat),
            result.1 == match collect {
                CollectFull::One => false,
                CollectFull::Ready => outcome is Some,
                CollectFull::All => running > 0,
            },
    {
        let again = match collect {
            CollectFull::One => false,
            CollectFull::Ready => outcome.is_some(),
            CollectFull::All => running > 0,
        };
        (outcome, again)
    }
}

/// Lets files through that have the size and the digest of another file.
pub struct FullHashFilter {
    /// For every size and digest met so far, the first file with them while it is the only one.
    pub seen: BTreeMap<(u64, u128, u128), Option<FilePath>>,
}

/// Whether a filter goes on to receive: it does until no more files can come and none waits.
pub open spec fn goes_on_receiving(closed: bool, waiting: nat) -> bool {
    !(closed && waiting == 0)
}

impl FullHashFilter {
    /// The messages that are held back, by size and digest.
    pub open spec fn held(&self) -> Map<(u64, Digest), Option<FullHashMessage>> {
        Map::new(
            |k: (u64, Digest)| self.seen@.contains_key((k.0, k.1.first, k.1.second)),
            |k: (u64, Digest)|
                match self.seen@[(k.0, k.1.first, k.1.second)] {
                    Some(path) => Some(FullHashMessage { file_size: k.0, hash: k.1, path }),
                    None => None,
                },
        )
    }

    pub fn new() -> (filter: FullHashFilter)
        ensures
            filter.held() == Map::<(u64, Digest), Option<FullHashMessage>>::empty(),
    {
        let filter = FullHashFilter { seen: BTreeMap::new() };
        assert(filter.held() =~= Map::empty());
        filter
    }

    /// Whether to receive another file, when `waiting` files wait. `closed` says that no more can
    /// come.
    pub fn goes_on(&self, closed: bool, waiting: usize) -> (goes_on: bool)
        ensures
            goes_on == goes_on_receiving(closed, waiting as nat),
            goes_on == !(closed && waiting == 0),
    {
        !(closed && waiting == 0)
    }

    /// Deals with a file; gives what passes, in order.
    pub fn receive(&mut self, message: FullHashMessage) -> (passed: Vec<FullHashMessage>)
        ensures
            passed@ == gate_out(old(self).held(), message.key(), message),
            final(self).held() == gate_next(old(self).held(), message.key(), message),
            ({
                let held = old(self).held();
                let key = (message.file_size, message.hash);
                if !held.contains_key(key) {
                    passed@.len() == 0 && final(self).held() == held.insert(key, Some(message))
                } else {
                    &&& passed@ == match held[key] {
                        Some(first) => seq![first, message],
                        None => seq![message],
                    }
                    &&& final(self).held() == held.insert(key, None)
                }
            }),
    {
        let mut passed: Vec<FullHashMessage> = Vec::new();
        let key = (message.file_size, message.hash.first, message.hash.second);
        let ghost m = message;
        match self.seen.remove(&key) {
            Some(held) => {
                if let Some(first) = held {
                    passed.push(
                        FullHashMessage {
                            file_size: message.file_size,
                            hash: message.hash,
                            path: first,
                        },
                    );
                }
                passed.push(message);
                self.seen.insert(key, None);
                assert(self.held()[m.key()] is None);
            },
            None => {
                self.seen.insert(key, Some(message.path));
                assert(self.held()[m.key()] == Some(m));
            },
        }
        assert(passed@ =~= gate_out(old(self).held(), m.key(), m));
        let ghost next = gate_next(old(self).held(), m.key(), m);
        assert forall|other: (u64, Digest)|
            self.held().contains_key(other) <==> #[trigger] next.contains_key(other) by {
            assert((other.0, other.1.first, other.1.second) == key <==> other == m.key());
        }
        assert forall|other: (u64, Digest)| #[trigger] next.contains_key(other) implies next[other]
            == self.held()[other] by {
            if other != m.key() {
                let k = (other.0, other.1.first, other.1.second);
                assert(k != key);
                assert(self.seen@[k] == old(self).seen@[k]);
                assert(next[other] == old(self).held()[other]);
            }
        }
        assert(self.held() =~= next);
        passed
    }
}

} // verus!
