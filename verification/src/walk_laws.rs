//! What a walk finds altogether, and that a walk of several directories finds what walks of each
//! find.

use crate::discovery_laws::{meet_entries, walk_after, Listing, Walk};
use crate::file_discovery_actors::{file_of_entry, queue_after_entry};
use crate::path::FilePath;
use vstd::multiset::Multiset;
use vstd::prelude::*;

verus! {

/// The directories of a listing that are read in their turn.
pub open spec fn directories_of(entries: Listing, excluded: Seq<FilePath>) -> Seq<FilePath>
    decreases entries.len(),
{
    if entries.len() == 0 {
        seq![]
    } else {
        queue_after_entry(
            directories_of(entries.drop_last(), excluded),
            entries.last().0,
            entries.last().1,
            excluded,
        )
    }
}

/// The files of a listing that are handed on.
pub open spec fn files_of(entries: Listing, excluded: Seq<FilePath>) -> Seq<FilePath>
    decreases entries.len(),
{
    if entries.len() == 0 {
        seq![]
    } else {
        let front = files_of(entries.drop_last(), excluded);
        match file_of_entry(entries.last().0, entries.last().1, excluded) {
            Some(file) => front.push(file),
            None => front,
        }
    }
}

/// What can be read of all directories: what is left out, and what every directory lists.
pub struct Tree {
    pub excluded: Seq<FilePath>,
    pub lists: spec_fn(FilePath) -> Listing,
}

impl Tree {
    /// The directories that a directory leads to.
    pub open spec fn directories(self, d: FilePath) -> Seq<FilePath> {
        directories_of((self.lists)(d), self.excluded)
    }

    /// The files of a directory.
    pub open spec fn files(self, d: FilePath) -> Seq<FilePath> {
        files_of((self.lists)(d), self.excluded)
    }

    /// Whether every way down from a directory ends before `depth` directories.
    pub open spec fn ends(self, d: FilePath, depth: nat) -> bool
        decreases depth,
    {
        depth > 0 && forall|i: int|
            0 <= i < self.directories(d).len() ==> self.ends(
                #[trigger] self.directories(d)[i],
                (depth - 1) as nat,
            )
    }

    /// Whether that holds of all of some directories.
    pub open spec fn all_end(self, ds: Seq<FilePath>, depth: nat) -> bool {
        forall|i: int| 0 <= i < ds.len() ==> self.ends(#[trigger] ds[i], depth)
    }

    /// The files in a directory and below it, as often as ways lead to them, down to `depth`
    /// directories.
    pub open spec fn below(self, d: FilePath, depth: nat) -> Multiset<FilePath>
        decreases depth, 0nat,
    {
        if depth == 0 {
            Multiset::empty()
        } else {
            self.files(d).to_multiset().add(
                self.below_all(self.directories(d), (depth - 1) as nat),
            )
        }
    }

    /// The files in and below all of some directories.
    pub open spec fn below_all(self, ds: Seq<FilePath>, depth: nat) -> Multiset<FilePath>
        decreases depth, ds.len() + 1,
    {
        if ds.len() == 0 {
            Multiset::empty()
        } else {
            self.below_all(ds.drop_last(), depth).add(self.below(ds.last(), depth))
        }
    }

    /// How many directories are read in and below a directory.
    pub open spec fn count(self, d: FilePath, depth: nat) -> nat
        decreases depth, 0nat,
    {
        if depth == 0 {
            0
        } else {
            1 + self.count_all(self.directories(d), (depth - 1) as nat)
        }
    }

    /// How many directories are read in and below all of some directories.
    pub open spec fn count_all(self, ds: Seq<FilePath>, depth: nat) -> nat
        decreases depth, ds.len() + 1,
    {
        if ds.len() == 0 {
            0
        } else {
            self.count_all(ds.drop_last(), depth) + self.count(ds.last(), depth)
        }
    }

    /// The walk after the next directory has been read, if one waits.
    pub open spec fn read_next(self, walk: Walk) -> Walk {
        if walk.queue.len() == 0 {
            walk
        } else {
            meet_entries(
                Walk {
                    queue: walk.queue.drop_first(),
                    done: walk.done.push(walk.queue[0]),
                    found: walk.found,
                },
                (self.lists)(walk.queue[0]),
                self.excluded,
            )
        }
    }

    /// The walk after some more directories have been read.
    pub open spec fn read_on(self, walk: Walk, steps: nat) -> Walk
        decreases steps,
    {
        if steps == 0 {
            walk
        } else {
            self.read_on(self.read_next(walk), (steps - 1) as nat)
        }
    }

    proof fn lemma_read_on(self, walk: Walk, steps: nat)
        requires
            steps > 0,
        ensures
            self.read_on(walk, steps) == self.read_next(self.read_on(walk, (steps - 1) as nat)),
        decreases steps,
    {
        reveal_with_fuel(Tree::read_on, 2);
        if steps > 1 {
            self.lemma_read_on(self.read_next(walk), (steps - 1) as nat);
        }
    }

    proof fn lemma_walk_after(self, roots: Seq<FilePath>, steps: nat)
        ensures
            walk_after(roots, self.excluded, self.lists, steps) == self.read_on(
                Walk { queue: roots, done: seq![], found: seq![] },
                steps,
            ),
        decreases steps,
    {
        if steps > 0 {
            self.lemma_walk_after(roots, (steps - 1) as nat);
            self.lemma_read_on(Walk { queue: roots, done: seq![], found: seq![] }, steps);
        }
    }

    proof fn lemma_read_next(self, walk: Walk)
        requires
            walk.queue.len() > 0,
        ensures
            self.read_next(walk).queue == walk.queue.drop_first() + self.directories(
                walk.queue[0],
            ),
            self.read_next(walk).found == walk.found + self.files(walk.queue[0]),
    {
        let started = Walk {
            queue: walk.queue.drop_first(),
            done: walk.done.push(walk.queue[0]),
            found: walk.found,
        };
        lemma_met(started, (self.lists)(walk.queue[0]), self.excluded);
    }

    /// A deeper look at what has ended shows nothing more.
    proof fn lemma_deeper(self, d: FilePath, depth: nat)
        requires
            self.ends(d, depth),
        ensures
            self.ends(d, depth + 1),
            self.below(d, depth + 1) == self.below(d, depth),
            self.count(d, depth + 1) == self.count(d, depth),
        decreases depth, 0nat,
    {
        self.lemma_all_deeper(self.directories(d), (depth - 1) as nat);
    }

    proof fn lemma_all_deeper(self, ds: Seq<FilePath>, depth: nat)
        requires
            self.all_end(ds, depth),
        ensures
            self.all_end(ds, depth + 1),
            self.below_all(ds, depth + 1) == self.below_all(ds, depth),
            self.count_all(ds, depth + 1) == self.count_all(ds, depth),
        decreases depth, ds.len() + 1,
    {
        if ds.len() > 0 {
            let front = ds.drop_last();
            assert forall|i: int| 0 <= i < front.len() implies self.ends(
                #[trigger] front[i],
                depth,
            ) by {
                assert(front[i] == ds[i]);
            }
            self.lemma_all_deeper(front, depth);
            assert(self.ends(ds[ds.len() - 1], depth));
            self.lemma_deeper(ds.last(), depth);
            assert forall|i: int| 0 <= i < ds.len() implies self.ends(
                #[trigger] ds[i],
                depth + 1,
            ) by {
                if i < front.len() {
                    assert(front[i] == ds[i]);
                }
            }
        }
    }

    proof fn lemma_much_deeper(self, ds: Seq<FilePath>, depth: nat, more: nat)
        requires
            self.all_end(ds, depth),
        ensures
            self.all_end(ds, depth + more),
            self.below_all(ds, depth + more) == self.below_all(ds, depth),
        decreases more,
    {
        if more > 0 {
            self.lemma_much_deeper(ds, depth, (more - 1) as nat);
            self.lemma_all_deeper(ds, (depth + more - 1) as nat);
        }
    }

    proof fn lemma_all_of_both(self, a: Seq<FilePath>, b: Seq<FilePath>, depth: nat)
        ensures
            self.below_all(a + b, depth) == self.below_all(a, depth).add(
                self.below_all(b, depth),
            ),
            self.count_all(a + b, depth) == self.count_all(a, depth) + self.count_all(b, depth),
        decreases b.len(),
    {
        if b.len() == 0 {
            assert(a + b =~= a);
            assert(self.below_all(a, depth).add(self.below_all(b, depth)) =~= self.below_all(
                a,
                depth,
            ));
        } else {
            self.lemma_all_of_both(a, b.drop_last(), depth);
            assert((a + b).drop_last() =~= a + b.drop_last());
            assert(self.below_all(a + b, depth) =~= self.below_all(a, depth).add(
                self.below_all(b, depth),
            ));
        }
    }

    proof fn lemma_all_of_one(self, d: FilePath, depth: nat)
        ensures
            self.below_all(seq![d], depth) == self.below(d, depth),
            self.count_all(seq![d], depth) == self.count(d, depth),
    {
        let one = seq![d];
        assert(one.drop_last() =~= seq![]);
        assert(self.below_all(one.drop_last(), depth) == Multiset::<FilePath>::empty());
        assert(self.count_all(one.drop_last(), depth) == 0);
        assert(self.below_all(one, depth) =~= self.below(d, depth));
    }

    /// What a walk that comes to its end finds from where it is.
    proof fn lemma_found(self, walk: Walk, steps: nat)
        requires
            self.read_on(walk, steps).queue.len() == 0,
        ensures
            self.all_end(walk.queue, steps),
            self.read_on(walk, steps).found.to_multiset() == walk.found.to_multiset().add(
                self.below_all(walk.queue, steps),
            ),
        decreases steps,
    {
        broadcast use vstd::seq_lib::group_to_multiset_ensures;

        if walk.queue.len() == 0 {
            self.lemma_stays(walk, steps);
            assert(walk.found.to_multiset().add(self.below_all(walk.queue, steps))
                =~= walk.found.to_multiset());
        } else {
            let depth = (steps - 1) as nat;
            let next = self.read_next(walk);
            self.lemma_found(next, depth);
            self.lemma_read_next(walk);
            let d = walk.queue[0];
            let rest = walk.queue.drop_first();
            let inner = self.directories(d);
            assert forall|i: int| 0 <= i < inner.len() implies self.ends(
                #[trigger] inner[i],
                depth,
            ) by {
                assert(next.queue[rest.len() + i] == inner[i]);
            }
            assert forall|i: int| 0 <= i < rest.len() implies self.ends(
                #[trigger] rest[i],
                depth,
            ) by {
                assert(next.queue[i] == rest[i]);
            }
            self.lemma_all_deeper(rest, depth);
            assert forall|i: int| 0 <= i < walk.queue.len() implies self.ends(
                #[trigger] walk.queue[i],
                steps,
            ) by {
                if i > 0 {
                    assert(rest[i - 1] == walk.queue[i]);
                }
            }
            self.lemma_all_of_both(rest, inner, depth);
            self.lemma_all_of_one(d, steps);
            self.lemma_all_of_both(seq![d], rest, steps);
            assert(walk.queue =~= seq![d] + rest);
            vstd::seq_lib::lemma_multiset_commutative(walk.found, self.files(d));
            let end = self.read_on(walk, steps).found.to_multiset();
            assert(end =~= walk.found.to_multiset().add(self.below_all(walk.queue, steps)));
        }
    }

    proof fn lemma_stays(self, walk: Walk, steps: nat)
        requires
            walk.queue.len() == 0,
        ensures
            self.read_on(walk, steps) == walk,
        decreases steps,
    {
        if steps > 0 {
            self.lemma_stays(walk, (steps - 1) as nat);
        }
    }

    /// A walk comes to its end when as many directories have been read as there are.
    proof fn lemma_comes_to_its_end(self, walk: Walk, depth: nat, steps: nat)
        requires
            self.all_end(walk.queue, depth),
            steps == self.count_all(walk.queue, depth),
        ensures
            self.read_on(walk, steps).queue.len() == 0,
        decreases steps,
    {
        if walk.queue.len() > 0 {
            let d = walk.queue[0];
            let rest = walk.queue.drop_first();
            let inner = self.directories(d);
            let next = self.read_next(walk);
            self.lemma_read_next(walk);
            assert(self.ends(d, depth));
            self.lemma_all_deeper(inner, (depth - 1) as nat);
            self.lemma_all_of_one(d, depth);
            self.lemma_all_of_both(seq![d], rest, depth);
            self.lemma_all_of_both(rest, inner, depth);
            assert(walk.queue =~= seq![d] + rest);
            assert forall|i: int| 0 <= i < next.queue.len() implies self.ends(
                #[trigger] next.queue[i],
                depth,
            ) by {
                if i < rest.len() {
                    assert(next.queue[i] == walk.queue[i + 1]);
                } else {
                    assert(next.queue[i] == inner[i - rest.len()]);
                }
            }
            self.lemma_comes_to_its_end(next, depth, (steps - 1) as nat);
        }
    }
}

proof fn lemma_met(walk: Walk, entries: Listing, excluded: Seq<FilePath>)
    ensures
        meet_entries(walk, entries, excluded).queue == walk.queue + directories_of(
            entries,
            excluded,
        ),
        meet_entries(walk, entries, excluded).found == walk.found + files_of(entries, excluded),
    decreases entries.len(),
{
    let after = meet_entries(walk, entries, excluded);
    if entries.len() > 0 {
        lemma_met(walk, entries.drop_last(), excluded);
    }
    assert(after.queue =~= walk.queue + directories_of(entries, excluded));
    assert(after.found =~= walk.found + files_of(entries, excluded));
}

/// A walk that has come to its end has handed on every file in and below the directories that it
/// began with, as often as ways lead to it, and nothing else.
pub proof fn lemma_walk_finds_what_is_below(tree: Tree, roots: Seq<FilePath>, steps: nat)
    requires
        walk_after(roots, tree.excluded, tree.lists, steps).queue.len() == 0,
    ensures
        tree.all_end(roots, steps),
        walk_after(roots, tree.excluded, tree.lists, steps).found.to_multiset() == tree.below_all(
            roots,
            steps,
        ),
{
    broadcast use vstd::seq_lib::group_to_multiset_ensures;

    let walk = Walk { queue: roots, done: seq![], found: seq![] };
    tree.lemma_walk_after(roots, steps);
    tree.lemma_found(walk, steps);
    assert(walk.found.to_multiset().add(tree.below_all(roots, steps)) =~= tree.below_all(
        roots,
        steps,
    ));
}

/// Where no way down goes on forever, a walk comes to its end, after as many steps as there are
/// directories.
pub proof fn lemma_walk_comes_to_its_end(tree: Tree, roots: Seq<FilePath>, depth: nat)
    requires
        tree.all_end(roots, depth),
    ensures
        walk_after(
            roots,
            tree.excluded,
            tree.lists,
            tree.count_all(roots, depth),
        ).queue.len() == 0,
{
    let steps = tree.count_all(roots, depth);
    tree.lemma_walk_after(roots, steps);
    tree.lemma_comes_to_its_end(Walk { queue: roots, done: seq![], found: seq![] }, depth, steps);
}

/// Any number of directories may be given: what is found from all of them is what is found from
/// some of them together with what is found from the others.
pub proof fn lemma_walks_add_up(
    tree: Tree,
    some: Seq<FilePath>,
    others: Seq<FilePath>,
    steps: nat,
    some_steps: nat,
    other_steps: nat,
)
    requires
        walk_after(some + others, tree.excluded, tree.lists, steps).queue.len() == 0,
        walk_after(some, tree.excluded, tree.lists, some_steps).queue.len() == 0,
        walk_after(others, tree.excluded, tree.lists, other_steps).queue.len() == 0,
    ensures
        walk_after(some + others, tree.excluded, tree.lists, steps).found.to_multiset()
            == walk_after(some, tree.excluded, tree.lists, some_steps).found.to_multiset().add(
            walk_after(others, tree.excluded, tree.lists, other_steps).found.to_multiset(),
        ),
{
    lemma_walk_finds_what_is_below(tree, some + others, steps);
    lemma_walk_finds_what_is_below(tree, some, some_steps);
    lemma_walk_finds_what_is_below(tree, others, other_steps);
    let depth = steps + some_steps + other_steps;
    tree.lemma_much_deeper(some + others, steps, (some_steps + other_steps) as nat);
    tree.lemma_much_deeper(some, some_steps, (steps + other_steps) as nat);
    tree.lemma_much_deeper(others, other_steps, (steps + some_steps) as nat);
    tree.lemma_all_of_both(some, others, depth);
}

} // verus!
