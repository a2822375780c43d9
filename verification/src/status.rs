//! The counts that are shown while the work goes on.

use crate::text::{decimal, decimal_text, right_align, right_aligned};
use vstd::prelude::*;
use vstd::string::*;

verus! {

/// Work that a stage has done since it last reported.
#[derive(Clone, Copy, Debug, PartialEq, Eq, Structural)]
pub enum StatusUpdate {
    PartialHash(usize),
    FullHash(usize),
    Duplicates(usize),
    HardLinks(usize),
    SymbolicLinks(usize),
}

/// The sums of all reports.
#[derive(Clone, Copy, Debug, PartialEq, Eq, Structural)]
pub struct StatusData {
    pub partial_hashes: usize,
    pub full_hashes: usize,
    pub duplicates: usize,
    pub hardlinks: usize,
    pub symbolic_links: usize,
}

impl Default for StatusData {
    fn default() -> (data: StatusData)
        ensures
            data == no_status(),
            data.partial_hashes == 0,
            data.full_hashes == 0,
            data.duplicates == 0,
            data.hardlinks == 0,
            data.symbolic_links == 0,
    {
        StatusData {
            partial_hashes: 0,
            full_hashes: 0,
            duplicates: 0,
            hardlinks: 0,
            symbolic_links: 0,
        }
    }
}

/// The sums before any report.
pub open spec fn no_status() -> StatusData {
    StatusData {
        partial_hashes: 0,
        full_hashes: 0,
        duplicates: 0,
        hardlinks: 0,
        symbolic_links: 0,
    }
}

/// What a report adds to the count of partial hashes.
pub open spec fn partial_hashes_in(update: StatusUpdate) -> nat {
    match update {
        StatusUpdate::PartialHash(n) => n as nat,
        _ => 0,
    }
}

/// What a report adds to the count of full hashes.
pub open spec fn full_hashes_in(update: StatusUpdate) -> nat {
    match update {
        StatusUpdate::FullHash(n) => n as nat,
        _ => 0,
    }
}

/// What a report adds to the count of duplicates.
pub open spec fn duplicates_in(update: StatusUpdate) -> nat {
    match update {
        StatusUpdate::Duplicates(n) => n as nat,
        _ => 0,
    }
}

/// What a report adds to the count of hard links.
pub open spec fn hardlinks_in(update: StatusUpdate) -> nat {
    match update {
        StatusUpdate::HardLinks(n) => n as nat,
        _ => 0,
    }
}

/// What a report adds to the count of symbolic links.
pub open spec fn symbolic_links_in(update: StatusUpdate) -> nat {
    match update {
        StatusUpdate::SymbolicLinks(n) => n as nat,
        _ => 0,
    }
}

impl StatusData {
    /// Whether a report can be added without a count growing too large.
    pub open spec fn has_room_for(self, update: StatusUpdate) -> bool {
        &&& self.partial_hashes + partial_hashes_in(update) <= usize::MAX
        &&& self.full_hashes + full_hashes_in(update) <= usize::MAX
        &&& self.duplicates + duplicates_in(update) <= usize::MAX
        &&& self.hardlinks + hardlinks_in(update) <= usize::MAX
        &&& self.symbolic_links + symbolic_links_in(update) <= usize::MAX
    }

    /// The sums with a report added.
    pub open spec fn merged(self, update: StatusUpdate) -> StatusData {
        StatusData {
            partial_hashes: (self.partial_hashes + partial_hashes_in(update)) as usize,
            full_hashes: (self.full_hashes + full_hashes_in(update)) as usize,
            duplicates: (self.duplicates + duplicates_in(update)) as usize,
            hardlinks: (self.hardlinks + hardlinks_in(update)) as usize,
            symbolic_links: (self.symbolic_links + symbolic_links_in(update)) as usize,
        }
    }

    /// Whether a report can be added.
    pub fn fits(&self, update: &StatusUpdate) -> (fits: bool)
        ensures
            fits == self.has_room_for(*update),
            fits == match *update {
                StatusUpdate::PartialHash(n) => self.partial_hashes + n <= usize::MAX,
                StatusUpdate::FullHash(n) => self.full_hashes + n <= usize::MAX,
                StatusUpdate::Duplicates(n) => self.duplicates + n <= usize::MAX,
                StatusUpdate::HardLinks(n) => self.hardlinks + n <= usize::MAX,
                StatusUpdate::SymbolicLinks(n) => self.symbolic_links + n <= usize::MAX,
            },
    {
        match *update {
            StatusUpdate::Duplicates(n) => self.duplicates <= usize::MAX - n,
            StatusUpdate::HardLinks(n) => self.hardlinks <= usize::MAX - n,
            StatusUpdate::PartialHash(n) => self.partial_hashes <= usize::MAX - n,
            StatusUpdate::FullHash(n) => self.full_hashes <= usize::MAX - n,
            StatusUpdate::SymbolicLinks(n) => self.symbolic_links <= usize::MAX - n,
        }
    }

    /// Adds a report.
    pub fn merge_status(&mut self, data: StatusUpdate)
        requires
            old(self).has_room_for(data),
        ensures
            *final(self) == old(self).merged(data),
            final(self).partial_hashes == old(self).partial_hashes + match data {
                StatusUpdate::PartialHash(n) => n as int,
                _ => 0,
            },
            final(self).full_hashes == old(self).full_hashes + match data {
                StatusUpdate::FullHash(n) => n as int,
                _ => 0,
            },
            final(self).duplicates == old(self).duplicates + match data {
                StatusUpdate::Duplicates(n) => n as int,
                _ => 0,
            },
            final(self).hardlinks == old(self).hardlinks + match data {
                StatusUpdate::HardLinks(n) => n as int,
                _ => 0,
            },
            final(self).symbolic_links == old(self).symbolic_links + match data {
                StatusUpdate::SymbolicLinks(n) => n as int,
                _ => 0,
            },
    {
        match data {
            StatusUpdate::Duplicates(n) => {
                self.duplicates = self.duplicates + n;
            },
            StatusUpdate::HardLinks(n) => {
                self.hardlinks = self.hardlinks + n;
            },
            StatusUpdate::PartialHash(n) => {
                self.partial_hashes = self.partial_hashes + n;
            },
            StatusUpdate::FullHash(n) => {
                self.full_hashes = self.full_hashes + n;
            },
            StatusUpdate::SymbolicLinks(n) => {
                self.symbolic_links = self.symbolic_links + n;
            },
        }
    }
}

/// The sum of what reports add to one of the counts.
pub open spec fn total(updates: Seq<StatusUpdate>, part: spec_fn(StatusUpdate) -> nat) -> nat
    decreases updates.len(),
{
    if updates.len() == 0 {
        0
    } else {
        total(updates.drop_last(), part) + part(updates.last())
    }
}

/// What the display does after it has taken a batch of reports.
#[derive(Clone, Copy, Debug, PartialEq, Eq, Structural)]
pub enum AfterBatch {
    /// No report can come any more.
    Finish,
    /// Take the next batch, if reports wait.
    TakeMore,
    /// Show the counts first: enough reports have been taken in one go.
    Pause,
}

/// What the display does when it has taken what it takes in one go.
#[derive(Clone, Copy, Debug, PartialEq, Eq, Structural)]
pub enum AfterRound {
    /// Look for reports again, without showing anything.
    LookAgain,
    /// Stop.
    Finish,
    /// Show the counts, wait a while, and look for reports again.
    Show,
}

/// How many reports are taken in one batch at most.
pub const BATCH_LIMIT: usize = 100;

/// More reports than this in one round make the display show the counts before it takes more.
pub const ROUND_LIMIT: usize = 1000;

/// How many milliseconds the display waits between two rounds.
pub const REFRESH_MILLISECONDS: u64 = 100;

/// How wide a count is at least.
pub const COUNT_WIDTH: usize = 9;

/// The names of the counts as they are shown, with whatever makes them bold or coloured.
pub struct StatusLabels {
    pub partial_hashes: String,
    pub full_hashes: String,
    pub duplicates: String,
    pub hardlinks: String,
    pub symbolic_links: String,
}

/// Shows the counts.
pub struct StatusDisplay {
    pub status: StatusData,
    /// How many reports have been taken in the current round.
    pub read_this_round: usize,
}

/// The sums with a batch of reports added, one by one.
pub open spec fn merged_batch(data: StatusData, batch: Seq<StatusUpdate>) -> StatusData
    decreases batch.len(),
{
    if batch.len() == 0 {
        data
    } else {
        merged_batch(data, batch.drop_last()).merged(batch.last())
    }
}

/// Whether every report of a batch can be added in its turn.
pub open spec fn batch_fits(data: StatusData, batch: Seq<StatusUpdate>) -> bool {
    forall|i: int|
        0 <= i < batch.len() ==> merged_batch(data, #[trigger] batch.take(i)).has_room_for(batch[i])
}

/// Every count is the sum of the reports of its kind, as long as the sums can be held; and then
/// every report can be added in its turn.
pub proof fn lemma_counts_are_totals(updates: Seq<StatusUpdate>)
    requires
        total(updates, |u: StatusUpdate| partial_hashes_in(u)) <= usize::MAX,
        total(updates, |u: StatusUpdate| full_hashes_in(u)) <= usize::MAX,
        total(updates, |u: StatusUpdate| duplicates_in(u)) <= usize::MAX,
        total(updates, |u: StatusUpdate| hardlinks_in(u)) <= usize::MAX,
        total(updates, |u: StatusUpdate| symbolic_links_in(u)) <= usize::MAX,
    ensures
        batch_fits(no_status(), updates),
        ({
            let sums = merged_batch(no_status(), updates);
            &&& sums.partial_hashes == total(updates, |u: StatusUpdate| partial_hashes_in(u))
            &&& sums.full_hashes == total(updates, |u: StatusUpdate| full_hashes_in(u))
            &&& sums.duplicates == total(updates, |u: StatusUpdate| duplicates_in(u))
            &&& sums.hardlinks == total(updates, |u: StatusUpdate| hardlinks_in(u))
            &&& sums.symbolic_links == total(updates, |u: StatusUpdate| symbolic_links_in(u))
        }),
    decreases updates.len(),
{
    if updates.len() > 0 {
        let front = updates.drop_last();
        lemma_counts_are_totals(front);
        assert forall|i: int| 0 <= i < updates.len() implies merged_batch(
            no_status(),
            #[trigger] updates.take(i),
        ).has_room_for(updates[i]) by {
            if i < front.len() {
                assert(updates.take(i) =~= front.take(i));
            } else {
                assert(updates.take(i) =~= front);
            }
        }
    }
}

/// A number, right-aligned in a column.
pub open spec fn count_column(n: usize) -> Seq<char> {
    right_aligned(decimal(n as nat), COUNT_WIDTH as nat)
}

/// A number, right-aligned in a column.
pub fn count_text(n: usize) -> (text: String)
    ensures
        text@ == count_column(n),
        text@ == right_aligned(decimal(n as nat), 9),
{
    right_align(decimal_text(n as u64).as_str(), COUNT_WIDTH)
}

impl StatusDisplay {
    pub fn new() -> (display: StatusDisplay)
        ensures
            display.status == no_status(),
            display.status.partial_hashes == 0,
            display.status.full_hashes == 0,
            display.status.duplicates == 0,
            display.status.hardlinks == 0,
            display.status.symbolic_links == 0,
            display.read_this_round == 0,
    {
        StatusDisplay { status: StatusData::default(), read_this_round: 0 }
    }

    /// Begins a round.
    pub fn begin_round(&mut self)
        ensures
            final(self).status == old(self).status,
            final(self).read_this_round == 0,
    {
        self.read_this_round = 0;
    }

    /// Takes a batch of reports. An empty batch says that no more will come.
    pub fn take_batch(&mut self, batch: &Vec<StatusUpdate>) -> (next: AfterBatch)
        requires
            old(self).read_this_round + batch@.len() <= usize::MAX,
            batch_fits(old(self).status, batch@),
        ensures
            final(self).status == merged_batch(old(self).status, batch@),
            final(self).read_this_round == old(self).read_this_round + batch@.len(),
            next == if batch@.len() == 0 {
                AfterBatch::Finish
            } else if old(self).read_this_round + batch@.len() > ROUND_LIMIT {
                AfterBatch::Pause
            } else {
                AfterBatch::TakeMore
            },
            next is Finish <==> batch@.len() == 0,
            next is Pause <==> batch@.len() > 0 && old(self).read_this_round + batch@.len() > 1000,
    {
        let mut i: usize = 0;
        assert(batch@.take(0) =~= seq![]);
        while i < batch.len()
            invariant
                i <= batch@.len(),
                batch_fits(old(self).status, batch@),
                self.status == merged_batch(old(self).status, batch@.take(i as int)),
                self.read_this_round == old(self).read_this_round,
            decreases batch@.len() - i,
        {
            self.status.merge_status(batch[i]);
            assert(batch@.take(i + 1).drop_last() =~= batch@.take(i as int));
            i = i + 1;
        }
        assert(batch@.take(i as int) =~= batch@);
        self.read_this_round = self.read_this_round + batch.len();
        if batch.len() == 0 {
            AfterBatch::Finish
        } else if self.read_this_round > ROUND_LIMIT {
            AfterBatch::Pause
        } else {
            AfterBatch::TakeMore
        }
    }

    /// Decides what to do at the end of a round. Nothing is ever shown where the output is no
    /// terminal, or one that cannot move its cursor; the next batch is taken then, and an empty one
    /// says that no more will come.
    pub fn end_round(&self, is_terminal: bool, is_dumb: bool, closed: bool) -> (next: AfterRound)
        ensures
            next == if !is_terminal || is_dumb {
                AfterRound::LookAgain
            } else if closed {
                AfterRound::Finish
            } else {
                AfterRound::Show
            },
    {
        if !is_terminal || is_dumb {
            AfterRound::LookAgain
        } else if closed {
            AfterRound::Finish
        } else {
            AfterRound::Show
        }
    }

    /// The lines that show the counts.
    pub open spec fn spec_lines(&self, labels: &StatusLabels) -> Seq<Seq<char>> {
        let tab = "\t"@;
        seq![
            labels.partial_hashes@ + tab + count_column(self.status.partial_hashes) + tab
                + labels.full_hashes@ + tab + decimal(self.status.full_hashes as nat),
            labels.duplicates@ + tab + count_column(self.status.duplicates) + tab
                + labels.hardlinks@ + tab + count_column(self.status.hardlinks),
            labels.symbolic_links@ + tab + count_column(self.status.symbolic_links),
        ]
    }

    /// The lines that show the counts.
    pub fn lines(&self, labels: &StatusLabels) -> (lines: Vec<String>)
        ensures
            lines@.map_values(|line: String| line@) == self.spec_lines(labels),
            lines@.len() == 3,
            lines@[0]@ == labels.partial_hashes@ + "\t"@ + right_aligned(
                decimal(self.status.partial_hashes as nat),
                9,
            ) + "\t"@ + labels.full_hashes@ + "\t"@ + decimal(self.status.full_hashes as nat),
            lines@[1]@ == labels.duplicates@ + "\t"@ + right_aligned(
                decimal(self.status.duplicates as nat),
                9,
            ) + "\t"@ + labels.hardlinks@ + "\t"@ + right_aligned(
                decimal(self.status.hardlinks as nat),
                9,
            ),
            lines@[2]@ == labels.symbolic_links@ + "\t"@ + right_aligned(
                decimal(self.status.symbolic_links as nat),
                9,
            ),
    {
        let mut first = labels.partial_hashes.clone();
        first.append("\t");
        first.append(count_text(self.status.partial_hashes).as_str());
        first.append("\t");
        first.append(labels.full_hashes.as_str());
        first.append("\t");
        first.append(decimal_text(self.status.full_hashes as u64).as_str());
        let mut second = labels.duplicates.clone();
        second.append("\t");
        second.append(count_text(self.status.duplicates).as_str());
        second.append("\t");
        second.append(labels.hardlinks.as_str());
        second.append("\t");
        second.append(count_text(self.status.hardlinks).as_str());
        let mut third = labels.symbolic_links.clone();
        third.append("\t");
        third.append(count_text(self.status.symbolic_links).as_str());
        let mut lines: Vec<String> = Vec::new();
        lines.push(first);
        lines.push(second);
        lines.push(third);
        assert(lines@.map_values(|line: String| line@) =~= self.spec_lines(labels));
        lines
    }
}

/// Nothing adds up to zero, and one more report adds what it holds.
pub proof fn lemma_total_adds_up(
    updates: Seq<StatusUpdate>,
    update: StatusUpdate,
    part: spec_fn(StatusUpdate) -> nat,
)
    ensures
        total(Seq::empty(), part) == 0,
        total(updates.push(update), part) == total(updates, part) + part(update),
{
    assert(updates.push(update).drop_last() =~= updates);
}

/// A batch of reports adds to every count what the reports of its kind hold, whatever the counts
/// were and in whatever order the reports come; and it can be added exactly if no count grows too
/// large in the end.
pub proof fn lemma_batch_adds_to_every_count(data: StatusData, batch: Seq<StatusUpdate>)
    ensures
        ({
            let partial_hashes = data.partial_hashes + total(
                batch,
                |u: StatusUpdate|
                    match u {
                        StatusUpdate::PartialHash(n) => n as nat,
                        _ => 0,
                    },
            );
            let full_hashes = data.full_hashes + total(
                batch,
                |u: StatusUpdate|
                    match u {
                        StatusUpdate::FullHash(n) => n as nat,
                        _ => 0,
                    },
            );
            let duplicates = data.duplicates + total(
                batch,
                |u: StatusUpdate|
                    match u {
                        StatusUpdate::Duplicates(n) => n as nat,
                        _ => 0,
                    },
            );
            let hardlinks = data.hardlinks + total(
                batch,
                |u: StatusUpdate|
                    match u {
                        StatusUpdate::HardLinks(n) => n as nat,
                        _ => 0,
                    },
            );
            let symbolic_links = data.symbolic_links + total(
                batch,
                |u: StatusUpdate|
                    match u {
                        StatusUpdate::SymbolicLinks(n) => n as nat,
                        _ => 0,
                    },
            );
            let sums = merged_batch(data, batch);
            &&& batch_fits(data, batch) <==> {
                &&& partial_hashes <= usize::MAX
                &&& full_hashes <= usize::MAX
                &&& duplicates <= usize::MAX
                &&& hardlinks <= usize::MAX
                &&& symbolic_links <= usize::MAX
            }
            &&& batch_fits(data, batch) ==> {
                &&& sums.partial_hashes == partial_hashes
                &&& sums.full_hashes == full_hashes
                &&& sums.duplicates == duplicates
                &&& sums.hardlinks == hardlinks
                &&& sums.symbolic_links == symbolic_links
            }
        }),
    decreases batch.len(),
{
    if batch.len() > 0 {
        let front = batch.drop_last();
        lemma_batch_adds_to_every_count(data, front);
        assert(batch.take(front.len() as int) =~= front);
        assert forall|i: int| 0 <= i < front.len() implies #[trigger] batch.take(i) == front.take(
            i,
        ) by {
            assert(batch.take(i) =~= front.take(i));
        }
        if batch_fits(data, batch) {
            assert forall|i: int| 0 <= i < front.len() implies merged_batch(
                data,
                #[trigger] front.take(i),
            ).has_room_for(front[i]) by {
                assert(batch.take(i) == front.take(i));
            }
            assert(batch_fits(data, front));
            assert(merged_batch(data, batch.take(front.len() as int)).has_room_for(batch.last()));
        }
        if batch_fits(data, front) && merged_batch(data, front).has_room_for(batch.last()) {
            assert forall|i: int| 0 <= i < batch.len() implies merged_batch(
                data,
                #[trigger] batch.take(i),
            ).has_room_for(batch[i]) by {
                if i < front.len() {
                    assert(batch.take(i) == front.take(i));
                }
            }
        }
    }
}

} // verus!
