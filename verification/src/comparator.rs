//! The comparison of files byte by byte, which decides what is a duplicate of what.

use crate::bytes::bytes_equal;
use crate::digest::Digest;
use crate::full_hash::FullHashMessage;
use crate::path::FilePath;
use crate::path_order::{in_order, insert_path, lemma_with_path, path_bytes, with_path};
use crate::status::StatusUpdate;
use std::collections::BTreeMap;
use vstd::prelude::*;

verus! {

broadcast use {
    vstd::std_specs::btree::group_btree_axioms,
    vstd::laws_cmp::group_laws_cmp,
};

/// Two files with the same content and the same permissions.
#[derive(Debug, PartialEq, Eq)]
pub struct DuplicateMessage {
    /// The size of both.
    pub file_size: u64,
    /// The digest of both.
    pub hash: Digest,
    /// The file that was met first.
    pub original: FilePath,
    /// The file that was met later.
    pub duplicate: FilePath,
}

impl Clone for DuplicateMessage {
    fn clone(&self) -> (copy: DuplicateMessage)
        ensures
            copy.key() == self.key(),
            copy.file_size == self.file_size,
            copy.hash == self.hash,
            copy.original@ == self.original@,
            copy.duplicate@ == self.duplicate@,
    {
        DuplicateMessage {
            file_size: self.file_size,
            hash: self.hash,
            original: self.original.clone(),
            duplicate: self.duplicate.clone(),
        }
    }
}

/// Finds out of every file whether it is a duplicate of one that was met before.
pub struct BytewiseFileComparator {
    /// By size and digest, the files that are no duplicates of one another, in order.
    pub map: BTreeMap<(u64, u128, u128), Vec<FilePath>>,
}

/// A file that is being compared.
#[derive(Debug, PartialEq, Eq)]
pub struct Comparison {
    pub message: FullHashMessage,
    /// The permissions of the file.
    pub mode: u32,
    /// Which of the files with its size and digest it is compared with; those before have been
    /// found to differ.
    pub position: usize,
}

/// What is to be done next for a file.
#[derive(Debug, PartialEq, Eq)]
pub enum Step {
    /// The permissions of `candidate` have to be found out.
    Permissions { comparison: Comparison, candidate: FilePath },
    /// The content of `candidate` has to be read.
    Contents { comparison: Comparison, candidate: FilePath },
    /// The file is a duplicate.
    Duplicate(DuplicateMessage),
    /// The file is none, and is kept as one that later files may be duplicates of.
    Kept,
    /// The file could not be read, and is passed over.
    Skipped,
}

impl Step {
    /// What a step sends: the duplicate, if the file is one and somebody takes duplicates, and the
    /// report that it was found. It is reported whether or not anybody takes it. `closed` says
    /// that nobody takes duplicates.
    pub fn sends(self, closed: bool) -> (sent: (Option<DuplicateMessage>, Option<StatusUpdate>))
        ensures
            match self {
                Step::Duplicate(found) => {
                    &&& sent.0 == if closed {
                        None
                    } else {
                        Some(found)
                    }
                    &&& sent.1 == Some(StatusUpdate::Duplicates(1))
                },
                _ => sent.0 is None && sent.1 is None,
            },
    {
        match self {
            Step::Duplicate(found) => {
                let taken = if closed {
                    None
                } else {
                    Some(found)
                };
                (taken, Some(StatusUpdate::Duplicates(1)))
            },
            _ => (None, None),
        }
    }
}

/// What is to be done next for a file, with the place of the file that it is compared with.
pub enum StepKind {
    Permissions(int),
    Contents(int),
    Duplicate(int),
    Kept,
}

/// What comes when `count` files are there and those before `position` differ.
pub open spec fn go_on(count: nat, position: int) -> StepKind {
    if position < count {
        StepKind::Permissions(position)
    } else {
        StepKind::Kept
    }
}

/// What comes when the permissions of the file at `position` are known.
pub open spec fn after_permissions(count: nat, position: int, same: bool) -> StepKind {
    if same {
        StepKind::Contents(position)
    } else {
        go_on(count, position + 1)
    }
}

/// What comes when the content of the file at `position` is known.
pub open spec fn after_contents(count: nat, position: int, same: bool) -> StepKind {
    if same {
        StepKind::Duplicate(position)
    } else {
        go_on(count, position + 1)
    }
}

impl DuplicateMessage {
    /// The size and the digest of both files.
    pub open spec fn key(self) -> (u64, Digest) {
        (self.file_size, self.hash)
    }
}

impl Comparison {
    /// The size and the digest of the file.
    pub open spec fn key(self) -> (u64, Digest) {
        self.message.key()
    }
}

/// Whether a step is of the given kind, for the file of a comparison and the originals with its
/// size and digest.
pub open spec fn is_step(
    step: Step,
    kind: StepKind,
    message: FullHashMessage,
    mode: u32,
    originals: Seq<Seq<u8>>,
) -> bool {
    match kind {
        StepKind::Permissions(at) => {
            &&& step matches Step::Permissions { comparison, candidate }
            &&& comparison.message == message
            &&& comparison.mode == mode
            &&& comparison.position == at
            &&& candidate@ == originals[at]
        },
        StepKind::Contents(at) => {
            &&& step matches Step::Contents { comparison, candidate }
            &&& comparison.message == message
            &&& comparison.mode == mode
            &&& comparison.position == at
            &&& candidate@ == originals[at]
        },
        StepKind::Duplicate(at) => {
            &&& step matches Step::Duplicate(found)
            &&& found.key() == message.key()
            &&& found.original@ == originals[at]
            &&& found.duplicate == message.path
        },
        StepKind::Kept => step is Kept,
    }
}

impl BytewiseFileComparator {
    /// The files with a size and digest that are no duplicates of one another, in order.
    pub open spec fn originals(&self, key: (u64, Digest)) -> Seq<Seq<u8>> {
        let k = (key.0, key.1.first, key.1.second);
        if self.map@.contains_key(k) {
            path_bytes(self.map@[k]@)
        } else {
            seq![]
        }
    }

    /// Whether all files stand in order.
    pub open spec fn well_formed(&self) -> bool {
        forall|key: (u64, Digest)| in_order(#[trigger] self.originals(key))
    }

    /// Whether a step of the given kind leaves these originals where `before` were: the file that
    /// is kept is added, and nothing else changes.
    pub open spec fn follows(
        &self,
        before: &BytewiseFileComparator,
        kind: StepKind,
        message: FullHashMessage,
    ) -> bool {
        forall|key: (u64, Digest)| #[trigger]
            self.originals(key) == if kind is Kept && key == message.key() {
                with_path(before.originals(key), message.path@)
            } else {
                before.originals(key)
            }
    }

    pub fn new() -> (comparator: BytewiseFileComparator)
        ensures
            comparator.well_formed(),
            forall|key: (u64, Digest)| (#[trigger] comparator.originals(key)).len() == 0,
            comparator.map@.dom().is_empty(),
    {
        BytewiseFileComparator { map: BTreeMap::new() }
    }

    /// Goes on with the next file that the given one may be a duplicate of; keeps the given one
    /// where there is none.
    fn next(&mut self, comparison: Comparison) -> (step: Step)
        requires
            old(self).well_formed(),
            comparison.position <= old(self).originals(comparison.key()).len(),
        ensures
            final(self).well_formed(),
            ({
                let originals = old(self).originals(comparison.key());
                let kind = go_on(originals.len(), comparison.position as int);
                &&& is_step(step, kind, comparison.message, comparison.mode, originals)
                &&& final(self).follows(old(self), kind, comparison.message)
            }),
            ({
                let originals = old(self).originals(
                    (comparison.message.file_size, comparison.message.hash),
                );
                match step {
                    Step::Permissions { comparison: next, candidate } => {
                        &&& next == comparison
                        &&& comparison.position < originals.len()
                        &&& candidate@ == originals[comparison.position as int]
                    },
                    Step::Kept => comparison.position == originals.len(),
                    _ => false,
                }
            }),
            forall|key: (u64, Digest)| #[trigger]
                final(self).originals(key) == if step is Kept && key == (comparison.message.file_size, comparison.message.hash) {
                    with_path(old(self).originals(key), comparison.message.path@)
                } else {
                    old(self).originals(key)
                },
    {
        let ghost message = comparison.message;
        let ghost originals = self.originals(comparison.key());
        let key = (
            comparison.message.file_size,
            comparison.message.hash.first,
            comparison.message.hash.second,
        );
        let mut paths: Vec<FilePath> = match self.map.remove(&key) {
            Some(paths) => paths,
            None => Vec::new(),
        };
        assert(path_bytes(paths@) =~= originals);
        if comparison.position < paths.len() {
            let candidate = paths[comparison.position].clone();
            assert(originals[comparison.position as int] == paths@[comparison.position as int]@);
            self.map.insert(key, paths);
            assert(self.map@ =~= old(self).map@);
            assert forall|k: (u64, Digest)| #[trigger] self.originals(k) == old(self).originals(
                k,
            ) && in_order(self.originals(k)) by {
                assert(in_order(old(self).originals(k)));
            }
            Step::Permissions { comparison, candidate }
        } else {
            assert(in_order(old(self).originals(message.key())));
            insert_path(&mut paths, comparison.message.path);
            self.map.insert(key, paths);
            assert forall|k: (u64, Digest)| #[trigger] self.originals(k) == if k == message.key() {
                with_path(old(self).originals(k), message.path@)
            } else {
                old(self).originals(k)
            } by {
                let t = (k.0, k.1.first, k.1.second);
                if t == key {
                    assert(k == message.key());
                }
            }
            assert forall|k: (u64, Digest)| in_order(#[trigger] self.originals(k)) by {
                assert(in_order(old(self).originals(k)));
            }
            Step::Kept
        }
    }

    /// Begins to compare a file that has the given permissions. `readable` says whether it could
    /// be opened.
    pub fn begin(&mut self, message: FullHashMessage, mode: u32, readable: bool) -> (step: Step)
        requires
            old(self).well_formed(),
        ensures
            final(self).well_formed(),
            !readable ==> step is Skipped && *final(self) == *old(self),
            readable ==> {
                let originals = old(self).originals(message.key());
                let kind = go_on(originals.len(), 0);
                &&& is_step(step, kind, message, mode, originals)
                &&& final(self).follows(old(self), kind, message)
            },
            ({
                let originals = old(self).originals((message.file_size, message.hash));
                match step {
                    Step::Permissions { comparison, candidate } => {
                        &&& readable
                        &&& originals.len() > 0
                        &&& comparison.message == message
                        &&& comparison.mode == mode
                        &&& comparison.position == 0
                        &&& candidate@ == originals[0]
                    },
                    Step::Kept => readable && originals.len() == 0,
                    Step::Skipped => !readable,
                    _ => false,
                }
            }),
            forall|key: (u64, Digest)| #[trigger]
                final(self).originals(key) == if step is Kept && key == (message.file_size, message.hash) {
                    with_path(old(self).originals(key), message.path@)
                } else {
                    old(self).originals(key)
                },
    {
        if !readable {
            return Step::Skipped;
        }
        self.next(Comparison { message, mode, position: 0 })
    }

    /// Goes on when the permissions of the candidate are known.
    pub fn permissions(&mut self, comparison: Comparison, candidate_mode: u32) -> (step: Step)
        requires
            old(self).well_formed(),
            comparison.position < old(self).originals(comparison.key()).len(),
        ensures
            final(self).well_formed(),
            ({
                let originals = old(self).originals(comparison.key());
                let kind = after_permissions(
                    originals.len(),
                    comparison.position as int,
                    candidate_mode == comparison.mode,
                );
                &&& is_step(step, kind, comparison.message, comparison.mode, originals)
                &&& final(self).follows(old(self), kind, comparison.message)
            }),
            ({
                let originals = old(self).originals(
                    (comparison.message.file_size, comparison.message.hash),
                );
                match step {
                    Step::Contents { comparison: next, candidate } => {
                        &&& candidate_mode == comparison.mode
                        &&& next == comparison
                        &&& candidate@ == originals[comparison.position as int]
                    },
                    Step::Permissions { comparison: next, candidate } => {
                        &&& candidate_mode != comparison.mode
                        &&& comparison.position + 1 < originals.len()
                        &&& next.message == comparison.message
                        &&& next.mode == comparison.mode
                        &&& next.position == comparison.position + 1
                        &&& candidate@ == originals[comparison.position + 1]
                    },
                    Step::Kept => {
                        &&& candidate_mode != comparison.mode
                        &&& comparison.position + 1 == originals.len()
                    },
                    _ => false,
                }
            }),
            forall|key: (u64, Digest)| #[trigger]
                final(self).originals(key) == if step is Kept && key == (comparison.message.file_size, comparison.message.hash) {
                    with_path(old(self).originals(key), comparison.message.path@)
                } else {
                    old(self).originals(key)
                },
    {
        if candidate_mode != comparison.mode {
            proof {
                self.lemma_position_has_a_next(comparison);
            }
            return self.next(Comparison { position: comparison.position + 1, ..comparison });
        }
        let candidate = self.candidate(&comparison);
        Step::Contents { comparison, candidate }
    }

    /// Goes on when the content of the candidate is known.
    pub fn contents(&mut self, comparison: Comparison, candidate: &[u8], own: &[u8]) -> (step: Step)
        requires
            old(self).well_formed(),
            comparison.position < old(self).originals(comparison.key()).len(),
        ensures
            final(self).well_formed(),
            ({
                let originals = old(self).originals(comparison.key());
                let kind = after_contents(
                    originals.len(),
                    comparison.position as int,
                    candidate@ == own@,
                );
                &&& is_step(step, kind, comparison.message, comparison.mode, originals)
                &&& final(self).follows(old(self), kind, comparison.message)
            }),
            ({
                let originals = old(self).originals(
                    (comparison.message.file_size, comparison.message.hash),
                );
                match step {
                    Step::Duplicate(found) => {
                        &&& candidate@ == own@
                        &&& found.original@ == originals[comparison.position as int]
                        &&& found.duplicate == comparison.message.path
                        &&& found.file_size == comparison.message.file_size
                        &&& found.hash == comparison.message.hash
                    },
                    Step::Permissions { comparison: next, candidate: file } => {
                        &&& candidate@ != own@
                        &&& comparison.position + 1 < originals.len()
                        &&& next.message == comparison.message
                        &&& next.mode == comparison.mode
                        &&& next.position == comparison.position + 1
                        &&& file@ == originals[comparison.position + 1]
                    },
                    Step::Kept => {
                        &&& candidate@ != own@
                        &&& comparison.position + 1 == originals.len()
                    },
                    _ => false,
                }
            }),
            forall|key: (u64, Digest)| #[trigger]
                final(self).originals(key) == if step is Kept && key == (comparison.message.file_size, comparison.message.hash) {
                    with_path(old(self).originals(key), comparison.message.path@)
                } else {
                    old(self).originals(key)
                },
    {
        if !bytes_equal(candidate, own) {
            proof {
                self.lemma_position_has_a_next(comparison);
            }
            return self.next(Comparison { position: comparison.position + 1, ..comparison });
        }
        let original = self.candidate(&comparison);
        Step::Duplicate(
            DuplicateMessage {
                file_size: comparison.message.file_size,
                hash: comparison.message.hash,
                original,
                duplicate: comparison.message.path,
            },
        )
    }

    /// A place among the files of a size and digest is never the largest number.
    proof fn lemma_position_has_a_next(&self, comparison: Comparison)
        requires
            comparison.position < self.originals(comparison.key()).len(),
        ensures
            comparison.position < usize::MAX,
    {
        let key = comparison.key();
        let paths = self.map@[(key.0, key.1.first, key.1.second)];
        assert(paths@.len() == paths.len());
    }

    /// The file that the given one is compared with.
    fn candidate(&self, comparison: &Comparison) -> (candidate: FilePath)
        requires
            comparison.position < self.originals(comparison.key()).len(),
        ensures
            candidate@ == self.originals(comparison.key())[comparison.position as int],
    {
        let key = (
            comparison.message.file_size,
            comparison.message.hash.first,
            comparison.message.hash.second,
        );
        match self.map.get(&key) {
            Some(paths) => paths[comparison.position].clone(),
            None => FilePath { bytes: Vec::new() },
        }
    }
}

/// How the comparison of a file ends when those before `position` differ. `same_mode` and
/// `same_content` say which of the `count` files have its permissions and its content.
pub open spec fn outcome_from(
    count: nat,
    same_mode: spec_fn(int) -> bool,
    same_content: spec_fn(int) -> bool,
    position: int,
) -> StepKind
    decreases count - position,
{
    match go_on(count, position) {
        StepKind::Permissions(at) => match after_permissions(count, at, same_mode(at)) {
            StepKind::Contents(same) => if same_content(same) {
                after_contents(count, same, true)
            } else {
                outcome_from(count, same_mode, same_content, position + 1)
            },
            _ => outcome_from(count, same_mode, same_content, position + 1),
        },
        kind => kind,
    }
}

/// A file is found to be a duplicate of the first file that has its permissions and its content,
/// and it is kept if and only if there is none.
pub proof fn lemma_first_equal_file_is_the_original(
    count: nat,
    same_mode: spec_fn(int) -> bool,
    same_content: spec_fn(int) -> bool,
)
    ensures
        match outcome_from(count, same_mode, same_content, 0) {
            StepKind::Duplicate(at) => {
                &&& 0 <= at < count
                &&& same_mode(at) && same_content(at)
                &&& forall|i: int| 0 <= i < at ==> !(#[trigger] same_mode(i) && same_content(i))
            },
            StepKind::Kept => forall|i: int|
                0 <= i < count ==> !(#[trigger] same_mode(i) && same_content(i)),
            _ => false,
        },
{
    lemma_outcome(count, same_mode, same_content, 0);
}

proof fn lemma_outcome(
    count: nat,
    same_mode: spec_fn(int) -> bool,
    same_content: spec_fn(int) -> bool,
    position: int,
)
    requires
        0 <= position,
    ensures
        match outcome_from(count, same_mode, same_content, position) {
            StepKind::Duplicate(at) => {
                &&& position <= at < count
                &&& same_mode(at) && same_content(at)
                &&& forall|i: int|
                    position <= i < at ==> !(#[trigger] same_mode(i) && same_content(i))
            },
            StepKind::Kept => forall|i: int|
                position <= i < count ==> !(#[trigger] same_mode(i) && same_content(i)),
            _ => false,
        },
    decreases count - position,
{
    if position < count {
        if !(same_mode(position) && same_content(position)) {
            lemma_outcome(count, same_mode, same_content, position + 1);
        }
    }
}

/// Whether no two of the files have the same permissions and the same content, where `modes` and
/// `contents` give those of every path.
pub open spec fn all_differ(
    originals: Seq<Seq<u8>>,
    modes: spec_fn(Seq<u8>) -> u32,
    contents: spec_fn(Seq<u8>) -> Seq<u8>,
) -> bool {
    forall|i: int, j: int|
        0 <= i < originals.len() && 0 <= j < originals.len() && i != j ==> !(modes(
            #[trigger] originals[i],
        ) == modes(#[trigger] originals[j]) && contents(originals[i]) == contents(originals[j]))
}

/// As long as files do not change, those that are kept are no duplicates of one another.
pub proof fn lemma_kept_files_differ(
    originals: Seq<Seq<u8>>,
    path: Seq<u8>,
    modes: spec_fn(Seq<u8>) -> u32,
    contents: spec_fn(Seq<u8>) -> Seq<u8>,
)
    requires
        in_order(originals),
        all_differ(originals, modes, contents),
        outcome_from(
            originals.len(),
            |i: int| modes(originals[i]) == modes(path),
            |i: int| contents(originals[i]) == contents(path),
            0,
        ) is Kept,
    ensures
        all_differ(with_path(originals, path), modes, contents),
{
    let same_mode = |i: int| modes(originals[i]) == modes(path);
    let same_content = |i: int| contents(originals[i]) == contents(path);
    lemma_outcome(originals.len(), same_mode, same_content, 0);
    lemma_with_path(originals, path);
    let result = with_path(originals, path);
    if result != originals {
        let place = crate::path_order::place_of(originals, path) as int;
        crate::path_order::lemma_place_bounds(originals, path);
        assert(result == originals.insert(place, path));
        assert forall|i: int, j: int|
            0 <= i < result.len() && 0 <= j < result.len() && i != j implies !(modes(
            #[trigger] result[i],
        ) == modes(#[trigger] result[j]) && contents(result[i]) == contents(result[j])) by {
            let a = if i < place { i } else { i - 1 };
            let b = if j < place { j } else { j - 1 };
            if i != place && j != place {
                assert(result[i] == originals[a]);
                assert(result[j] == originals[b]);
            } else if i == place {
                assert(result[j] == originals[b]);
                assert(!(same_mode(b) && same_content(b)));
            } else {
                assert(result[i] == originals[a]);
                assert(!(same_mode(a) && same_content(a)));
            }
        }
    }
}

/// The files that may be duplicated are, for every size and digest, the paths that stand under
/// them, each in its place; there are none where nothing stands under them.
pub proof fn lemma_originals_are_the_files_under_the_key(
    comparator: BytewiseFileComparator,
    file_size: u64,
    hash: Digest,
)
    ensures
        ({
            let k = (file_size, hash.first, hash.second);
            let originals = comparator.originals((file_size, hash));
            if comparator.map@.contains_key(k) {
                &&& originals.len() == comparator.map@[k]@.len()
                &&& forall|i: int|
                    0 <= i < originals.len() ==> #[trigger] originals[i]
                        == comparator.map@[k]@[i].bytes@
            } else {
                originals.len() == 0
            }
        }),
{
}

/// Whether `steps` are what a comparison is led through from its begin on, where `modes` and
/// `contents` give the permissions and the content that every candidate is found to have.
pub open spec fn compares(
    steps: Seq<Step>,
    message: FullHashMessage,
    mode: u32,
    own: Seq<u8>,
    originals: Seq<Seq<u8>>,
    modes: spec_fn(Seq<u8>) -> u32,
    contents: spec_fn(Seq<u8>) -> Seq<u8>,
) -> bool
    decreases steps.len(),
{
    if steps.len() <= 1 {
        steps.len() == 1 && is_step(
            steps[0],
            go_on(originals.len(), 0),
            message,
            mode,
            originals,
        )
    } else {
        let front = steps.drop_last();
        &&& compares(front, message, mode, own, originals, modes, contents)
        &&& match front.last() {
            Step::Permissions { comparison, candidate } => is_step(
                steps.last(),
                after_permissions(
                    originals.len(),
                    comparison.position as int,
                    modes(candidate@) == comparison.mode,
                ),
                comparison.message,
                comparison.mode,
                originals,
            ),
            Step::Contents { comparison, candidate } => is_step(
                steps.last(),
                after_contents(
                    originals.len(),
                    comparison.position as int,
                    contents(candidate@) == own,
                ),
                comparison.message,
                comparison.mode,
                originals,
            ),
            _ => false,
        }
    }
}

/// A comparison that is told the permissions and the content of every candidate as they are comes
/// to the truth: the file is a duplicate of the first candidate that has the very permissions that
/// the comparison was begun with and the file's own content, and it is kept only if there is none.
/// On the way it carries these permissions unchanged, and it takes at most two questions for each
/// candidate.
pub proof fn lemma_comparison_comes_to_the_truth(
    steps: Seq<Step>,
    message: FullHashMessage,
    mode: u32,
    own: Seq<u8>,
    originals: Seq<Seq<u8>>,
    modes: spec_fn(Seq<u8>) -> u32,
    contents: spec_fn(Seq<u8>) -> Seq<u8>,
)
    requires
        compares(steps, message, mode, own, originals, modes, contents),
    ensures
        steps.len() <= 2 * originals.len() + 1,
        match steps.last() {
            Step::Permissions { comparison, candidate } => {
                &&& comparison.message == message
                &&& comparison.mode == mode
                &&& steps.len() <= 2 * comparison.position + 1 < 2 * originals.len()
                &&& candidate@ == originals[comparison.position as int]
                &&& forall|i: int|
                    0 <= i < comparison.position ==> modes(#[trigger] originals[i]) != mode
                        || contents(originals[i]) != own
            },
            Step::Contents { comparison, candidate } => {
                &&& comparison.message == message
                &&& comparison.mode == mode
                &&& steps.len() <= 2 * comparison.position + 2 <= 2 * originals.len()
                &&& candidate@ == originals[comparison.position as int]
                &&& modes(originals[comparison.position as int]) == mode
                &&& forall|i: int|
                    0 <= i < comparison.position ==> modes(#[trigger] originals[i]) != mode
                        || contents(originals[i]) != own
            },
            Step::Duplicate(found) => {
                &&& found.file_size == message.file_size
                &&& found.hash == message.hash
                &&& found.duplicate == message.path
                &&& exists|at: int|
                    {
                        &&& 0 <= at < originals.len()
                        &&& found.original@ == #[trigger] originals[at]
                        &&& modes(originals[at]) == mode
                        &&& contents(originals[at]) == own
                        &&& forall|i: int|
                            0 <= i < at ==> modes(#[trigger] originals[i]) != mode || contents(
                                originals[i],
                            ) != own
                    }
            },
            Step::Kept => forall|i: int|
                0 <= i < originals.len() ==> modes(#[trigger] originals[i]) != mode || contents(
                    originals[i],
                ) != own,
            Step::Skipped => false,
        },
    decreases steps.len(),
{
    if steps.len() > 1 {
        let front = steps.drop_last();
        lemma_comparison_comes_to_the_truth(
            front,
            message,
            mode,
            own,
            originals,
            modes,
            contents,
        );
        if let Step::Contents { comparison, candidate } = front.last() {
            assert(candidate@ == originals[comparison.position as int]);
        }
    }
}

/// A comparison that has come to its end has come to the outcome that is foretold for files with
/// the permissions that it was begun with, and with the file's own content.
pub proof fn lemma_comparison_ends_as_foretold(
    steps: Seq<Step>,
    message: FullHashMessage,
    mode: u32,
    own: Seq<u8>,
    originals: Seq<Seq<u8>>,
    modes: spec_fn(Seq<u8>) -> u32,
    contents: spec_fn(Seq<u8>) -> Seq<u8>,
)
    requires
        compares(steps, message, mode, own, originals, modes, contents),
        steps.last() is Duplicate || steps.last() is Kept,
    ensures
        match outcome_from(
            originals.len(),
            |i: int| modes(originals[i]) == mode,
            |i: int| contents(originals[i]) == own,
            0,
        ) {
            StepKind::Duplicate(at) => {
                &&& steps.last() matches Step::Duplicate(found)
                &&& found.file_size == message.file_size
                &&& found.hash == message.hash
                &&& found.duplicate == message.path
                &&& found.original@ == originals[at]
            },
            StepKind::Kept => steps.last() is Kept,
            _ => false,
        },
{
    let same_mode = |i: int| modes(originals[i]) == mode;
    let same_content = |i: int| contents(originals[i]) == own;
    lemma_comparison_comes_to_the_truth(steps, message, mode, own, originals, modes, contents);
    lemma_first_equal_file_is_the_original(originals.len(), same_mode, same_content);
    match steps.last() {
        Step::Duplicate(found) => {
            let at = choose|at: int|
                {
                    &&& 0 <= at < originals.len()
                    &&& found.original@ == #[trigger] originals[at]
                    &&& modes(originals[at]) == mode
                    &&& contents(originals[at]) == own
                    &&& forall|i: int|
                        0 <= i < at ==> modes(#[trigger] originals[i]) != mode || contents(
                            originals[i],
                        ) != own
                };
            assert(same_mode(at) && same_content(at));
            if let StepKind::Duplicate(first) = outcome_from(
                originals.len(),
                same_mode,
                same_content,
                0,
            ) {
                assert(same_mode(first) && same_content(first));
                assert(modes(originals[first]) == mode);
                assert(first == at);
            }
        },
        _ => {
            if let StepKind::Duplicate(first) = outcome_from(
                originals.len(),
                same_mode,
                same_content,
                0,
            ) {
                assert(same_mode(first) && same_content(first));
                assert(modes(originals[first]) == mode);
            }
        },
    }
}

} // verus!
