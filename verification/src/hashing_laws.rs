//! What holds of the tasks that hash files, and of a filter that receives from a channel, however
//! events follow one another.

use crate::full_hash::{
    collect_after_full_start, collect_at_full_end, collects_full_on, goes_on_receiving,
    CollectFull, FullHashMessage,
};
use crate::partial_hash::{
    collect_after_start, collect_at_end, collects_on, hashed_message, Collect, PartialHashMessage,
    PartialHasher, TaskOutcome,
};
use crate::seqs::{lemma_came_from, same_members};
use vstd::multiset::Multiset;
use vstd::prelude::*;

verus! {

/// How a stage that works in tasks collects them. `C` are its ways of collecting, `O` is how a
/// task can end, `M` is what it hands on.
#[verifier::reject_recursive_types(C)]
#[verifier::reject_recursive_types(O)]
#[verifier::reject_recursive_types(M)]
pub struct Policy<C, O, M> {
    /// How tasks are collected when one has been started, by how many run.
    pub after_start: spec_fn(nat) -> C,
    /// How they are collected when the input has ended, by how many run.
    pub at_end: spec_fn(nat) -> Option<C>,
    /// Whether another one is collected after one, by how many are left.
    pub goes_on: spec_fn(C, Option<O>, nat) -> bool,
    /// Whether a way of collecting waits until a task is done.
    pub waits: spec_fn(C) -> bool,
    /// What is handed on of a task.
    pub hands_on: spec_fn(O) -> Option<M>,
}

/// What happens to a stage that works in tasks.
pub enum TaskEvent<O> {
    /// A file has come and its task was started; it will end as given.
    Started(O),
    /// A task that has ended as given was collected.
    Collected(O),
    /// No task was found to be done.
    NothingDone,
    /// No more files come.
    InputEnded,
}

/// How far a stage that works in tasks has come.
#[verifier::reject_recursive_types(O)]
pub struct TaskRun<C, O> {
    /// All tasks that were started.
    pub started: Seq<O>,
    /// All tasks that were collected.
    pub collected: Seq<O>,
    /// The tasks that run, or are done and not collected.
    pub running: Multiset<O>,
    /// How tasks are being collected, while they are.
    pub collecting: Option<C>,
    /// Whether the input has ended.
    pub ended: bool,
}

/// A stage before anything has happened.
pub open spec fn no_tasks<C, O>() -> TaskRun<C, O> {
    TaskRun {
        started: seq![],
        collected: seq![],
        running: Multiset::empty(),
        collecting: None,
        ended: false,
    }
}

/// Whether an event can come next. Tasks are collected before the next file is received, and where
/// a task is waited for, one comes.
pub open spec fn task_event_can_come<C, O, M>(
    policy: Policy<C, O, M>,
    run: TaskRun<C, O>,
    event: TaskEvent<O>,
) -> bool {
    match event {
        TaskEvent::Started(_) => run.collecting is None && !run.ended,
        TaskEvent::Collected(outcome) => run.collecting is Some && run.running.count(outcome) > 0,
        TaskEvent::NothingDone => run.collecting matches Some(c) && !(policy.waits)(c),
        TaskEvent::InputEnded => run.collecting is None && !run.ended,
    }
}

/// The stage after an event.
pub open spec fn after_task_event<C, O, M>(
    policy: Policy<C, O, M>,
    run: TaskRun<C, O>,
    event: TaskEvent<O>,
) -> TaskRun<C, O> {
    match event {
        TaskEvent::Started(outcome) => {
            let running = run.running.insert(outcome);
            TaskRun {
                started: run.started.push(outcome),
                running,
                collecting: Some((policy.after_start)(running.len())),
                ..run
            }
        },
        TaskEvent::Collected(outcome) => {
            let running = run.running.remove(outcome);
            TaskRun {
                collected: run.collected.push(outcome),
                running,
                collecting: if (policy.goes_on)(run.collecting->0, Some(outcome), running.len()) {
                    run.collecting
                } else {
                    None
                },
                ..run
            }
        },
        TaskEvent::NothingDone => TaskRun {
            collecting: if (policy.goes_on)(run.collecting->0, None, run.running.len()) {
                run.collecting
            } else {
                None
            },
            ..run
        },
        TaskEvent::InputEnded => TaskRun {
            collecting: (policy.at_end)(run.running.len()),
            ended: true,
            ..run
        },
    }
}

/// The stage after events, from none.
pub open spec fn task_run<C, O, M>(
    policy: Policy<C, O, M>,
    events: Seq<TaskEvent<O>>,
) -> TaskRun<C, O>
    decreases events.len(),
{
    if events.len() == 0 {
        no_tasks()
    } else {
        after_task_event(policy, task_run(policy, events.drop_last()), events.last())
    }
}

/// Whether events can come one after the other.
pub open spec fn tasks_can_go<C, O, M>(policy: Policy<C, O, M>, events: Seq<TaskEvent<O>>) -> bool
    decreases events.len(),
{
    events.len() == 0 || {
        &&& tasks_can_go(policy, events.drop_last())
        &&& task_event_can_come(policy, task_run(policy, events.drop_last()), events.last())
    }
}

/// Whether a stage has finished: events could come as they did, the input has ended, and nothing
/// is being collected any more.
pub open spec fn has_finished<C, O, M>(policy: Policy<C, O, M>, events: Seq<TaskEvent<O>>) -> bool {
    &&& tasks_can_go(policy, events)
    &&& task_run(policy, events).ended
    &&& task_run(policy, events).collecting is None
}

/// What is handed on of tasks, in order.
pub open spec fn handed_of<O, M>(hands_on: spec_fn(O) -> Option<M>, tasks: Seq<O>) -> Seq<M>
    decreases tasks.len(),
{
    if tasks.len() == 0 {
        seq![]
    } else {
        let front = handed_of(hands_on, tasks.drop_last());
        match hands_on(tasks.last()) {
            Some(message) => front.push(message),
            None => front,
        }
    }
}

/// What a stage hands on while events come, in order.
pub open spec fn handed_on<C, O, M>(policy: Policy<C, O, M>, events: Seq<TaskEvent<O>>) -> Seq<M> {
    handed_of(policy.hands_on, task_run(policy, events).collected)
}

/// Whether a way of collecting goes on until no task is left.
pub open spec fn drains<C, O, M>(policy: Policy<C, O, M>, c: C) -> bool {
    &&& (policy.waits)(c)
    &&& forall|outcome: Option<O>, running: nat| #[trigger]
        (policy.goes_on)(c, outcome, running) == (running > 0)
}

/// Whether a stage goes on at the end of its input until no task is left.
pub open spec fn drains_at_end<C, O, M>(policy: Policy<C, O, M>) -> bool {
    forall|running: nat|
        #![trigger (policy.at_end)(running)]
        if running > 0 {
            (policy.at_end)(running) matches Some(c) && drains(policy, c)
        } else {
            (policy.at_end)(running) is None
        }
}

proof fn lemma_tasks<C, O, M>(policy: Policy<C, O, M>, events: Seq<TaskEvent<O>>)
    requires
        tasks_can_go(policy, events),
        drains_at_end(policy),
    ensures
        ({
            let run = task_run(policy, events);
            &&& run.started.to_multiset() == run.collected.to_multiset().add(run.running)
            &&& run.ended && run.collecting is None ==> run.running.len() == 0
            &&& run.ended ==> (run.collecting matches Some(c) ==> drains(policy, c))
        }),
    decreases events.len(),
{
    broadcast use vstd::seq_lib::group_to_multiset_ensures;

    if events.len() == 0 {
        let run = task_run(policy, events);
        assert(run.started.to_multiset() =~= run.collected.to_multiset().add(run.running));
    } else {
        let front = events.drop_last();
        lemma_tasks(policy, front);
        let before = task_run(policy, front);
        let run = task_run(policy, events);
        assert(run.started.to_multiset() =~= run.collected.to_multiset().add(run.running));
    }
}

proof fn lemma_handed_of_push<O, M>(hands_on: spec_fn(O) -> Option<M>, tasks: Seq<O>, i: int)
    requires
        0 <= i < tasks.len(),
    ensures
        handed_of(hands_on, tasks).to_multiset() == match hands_on(tasks[i]) {
            Some(message) => handed_of(hands_on, tasks.remove(i)).to_multiset().insert(message),
            None => handed_of(hands_on, tasks.remove(i)).to_multiset(),
        },
    decreases tasks.len(),
{
    broadcast use vstd::seq_lib::group_to_multiset_ensures;

    let rest = tasks.remove(i);
    if i == tasks.len() - 1 {
        assert(rest =~= tasks.drop_last());
    } else {
        let front = tasks.drop_last();
        lemma_handed_of_push(hands_on, front, i);
        assert(rest.drop_last() =~= front.remove(i));
        assert(rest.last() == tasks.last());
        let a = handed_of(hands_on, front).to_multiset();
        let b = handed_of(hands_on, front.remove(i)).to_multiset();
        if hands_on(tasks.last()) is Some && hands_on(tasks[i]) is Some {
            let x = hands_on(tasks.last())->0;
            let y = hands_on(tasks[i])->0;
            assert(b.insert(y).insert(x) =~= b.insert(x).insert(y));
        }
    }
}

/// What is handed on of the same tasks in another order is the same, in another order.
pub proof fn lemma_handed_of_same_tasks<O, M>(
    hands_on: spec_fn(O) -> Option<M>,
    a: Seq<O>,
    b: Seq<O>,
)
    requires
        same_members(a, b),
    ensures
        same_members(handed_of(hands_on, a), handed_of(hands_on, b)),
    decreases a.len(),
{
    broadcast use vstd::seq_lib::group_to_multiset_ensures;

    assert(a.len() == a.to_multiset().len());
    assert(b.len() == b.to_multiset().len());
    if a.len() == 0 {
        assert(a =~= b);
    } else {
        let x = a.last();
        assert(a[a.len() - 1] == x);
        assert(a.contains(x));
        assert(b.to_multiset().count(x) > 0);
        assert(b.contains(x));
        let i = choose|i: int| 0 <= i < b.len() && b[i] == x;
        assert(a.remove(a.len() - 1) =~= a.drop_last());
        assert(a.drop_last().to_multiset() == a.to_multiset().remove(x));
        assert(b.remove(i).to_multiset() == b.to_multiset().remove(x));
        lemma_handed_of_same_tasks(hands_on, a.drop_last(), b.remove(i));
        lemma_handed_of_push(hands_on, a, a.len() - 1);
        lemma_handed_of_push(hands_on, b, i);
    }
}

/// A stage that goes on at the end of its input until no task is left loses nothing: when it has
/// finished, no task runs, and what it has handed on is what all tasks that were started have
/// given.
pub proof fn lemma_no_task_is_lost<C, O, M>(policy: Policy<C, O, M>, events: Seq<TaskEvent<O>>)
    requires
        has_finished(policy, events),
        drains_at_end(policy),
    ensures
        task_run(policy, events).running.len() == 0,
        same_members(
            handed_on(policy, events),
            handed_of(policy.hands_on, task_run(policy, events).started),
        ),
{
    let run = task_run(policy, events);
    lemma_tasks(policy, events);
    assert(run.running =~= Multiset::empty());
    assert(run.collected.to_multiset().add(run.running) =~= run.collected.to_multiset());
    lemma_handed_of_same_tasks(policy.hands_on, run.collected, run.started);
}

/// How the stage that reads the start of files collects its tasks.
pub open spec fn partial_policy(max_tasks: usize) -> Policy<
    Collect,
    TaskOutcome,
    PartialHashMessage,
> {
    Policy {
        after_start: |running: nat| collect_after_start(max_tasks, running),
        at_end: |running: nat| collect_at_end(running),
        goes_on: |c: Collect, outcome: Option<TaskOutcome>, running: nat|
            collects_on(c, outcome, running),
        waits: |c: Collect| c == Collect::All,
        hands_on: |outcome: TaskOutcome| hashed_message(outcome),
    }
}

/// How the stage that hashes whole files collects its tasks. A task ends with what it gave, or with
/// `None` where it did not come to an end of its own.
pub open spec fn full_policy(max_tasks: usize) -> Policy<
    CollectFull,
    Option<FullHashMessage>,
    FullHashMessage,
> {
    Policy {
        after_start: |running: nat| collect_after_full_start(max_tasks, running),
        at_end: |running: nat| collect_at_full_end(running),
        goes_on: |c: CollectFull, outcome: Option<Option<FullHashMessage>>, running: nat|
            collects_full_on(
                c,
                match outcome {
                    Some(outcome) => outcome,
                    None => None,
                },
                running,
            ),
        waits: |c: CollectFull| c != CollectFull::Ready,
        hands_on: |outcome: Option<FullHashMessage>| outcome,
    }
}

proof fn lemma_partial_drains(max_tasks: usize)
    ensures
        drains_at_end(partial_policy(max_tasks)),
{
    let policy = partial_policy(max_tasks);
    assert forall|running: nat|
        #![trigger (policy.at_end)(running)]
        if running > 0 {
            (policy.at_end)(running) matches Some(c) && drains(policy, c)
        } else {
            (policy.at_end)(running) is None
        } by {
        assert(drains(policy, Collect::All));
    }
}

/// Every file whose start was read is handed on: when the stage has finished, what it has handed on
/// is what all tasks that were started have read, whatever the order in which they were done.
pub proof fn lemma_every_start_is_handed_on(max_tasks: usize, events: Seq<TaskEvent<TaskOutcome>>)
    requires
        has_finished(partial_policy(max_tasks), events),
    ensures
        ({
            let policy = partial_policy(max_tasks);
            let run = task_run(policy, events);
            &&& run.running.len() == 0
            &&& same_members(
                handed_on(policy, events),
                handed_of(policy.hands_on, run.started),
            )
        }),
{
    let policy = partial_policy(max_tasks);
    lemma_partial_drains(max_tasks);
    lemma_no_task_is_lost(policy, events);
}

/// Every file that was hashed is handed on: when the stage has finished, what it has handed on is
/// what all tasks that were started have given, whatever the order in which they were done.
pub proof fn lemma_every_hash_is_handed_on(
    max_tasks: usize,
    events: Seq<TaskEvent<Option<FullHashMessage>>>,
)
    requires
        has_finished(full_policy(max_tasks), events),
    ensures
        ({
            let policy = full_policy(max_tasks);
            let run = task_run(policy, events);
            &&& run.running.len() == 0
            &&& same_members(
                handed_on(policy, events),
                handed_of(policy.hands_on, run.started),
            )
        }),
{
    let policy = full_policy(max_tasks);
    assert forall|running: nat|
        #![trigger (policy.at_end)(running)]
        if running > 0 {
            (policy.at_end)(running) matches Some(c) && drains(policy, c)
        } else {
            (policy.at_end)(running) is None
        } by {
        assert(drains(policy, CollectFull::All));
    }
    lemma_no_task_is_lost(policy, events);
}

/// What the stage that reads the start of files has counted.
pub struct Counts {
    /// How many tasks have been counted.
    pub counter: nat,
    /// How many had been counted when the last collection began.
    pub last_count: nat,
    /// The sum of all reports.
    pub reported: nat,
}

/// What has been counted after events. When a collection begins, what has been counted so far is
/// noted; when it is over, what was counted since is reported.
pub open spec fn counts_after(max_tasks: usize, events: Seq<TaskEvent<TaskOutcome>>) -> Counts
    decreases events.len(),
{
    if events.len() == 0 {
        Counts { counter: 0, last_count: 0, reported: 0 }
    } else {
        let policy = partial_policy(max_tasks);
        let front = events.drop_last();
        let counts = counts_after(max_tasks, front);
        let collecting = task_run(policy, front).collecting;
        let over = task_run(policy, events).collecting is None;
        match events.last() {
            TaskEvent::Started(_) | TaskEvent::InputEnded => Counts {
                last_count: counts.counter,
                ..counts
            },
            TaskEvent::Collected(outcome) => counted(
                counts,
                PartialHasher::counts(collecting->0, Some(outcome)),
                over,
            ),
            TaskEvent::NothingDone => counted(
                counts,
                PartialHasher::counts(collecting->0, None),
                over,
            ),
        }
    }
}

/// What has been counted after one more outcome, which counts or does not, and after which the
/// collection is over or goes on.
pub open spec fn counted(counts: Counts, counts_one: bool, over: bool) -> Counts {
    let counter = if counts_one {
        counts.counter + 1
    } else {
        counts.counter
    };
    Counts {
        counter,
        last_count: counts.last_count,
        reported: if over {
            (counts.reported + (counter - counts.last_count)) as nat
        } else {
            counts.reported
        },
    }
}

proof fn lemma_counts(max_tasks: usize, events: Seq<TaskEvent<TaskOutcome>>)
    requires
        tasks_can_go(partial_policy(max_tasks), events),
        forall|i: int|
            0 <= i < task_run(partial_policy(max_tasks), events).collected.len()
                ==> hashed_message(
                #[trigger] task_run(partial_policy(max_tasks), events).collected[i],
            ) is Some,
    ensures
        ({
            let counts = counts_after(max_tasks, events);
            let run = task_run(partial_policy(max_tasks), events);
            &&& counts.counter == run.collected.len()
            &&& counts.last_count <= counts.counter
            &&& run.collecting is None ==> counts.reported == counts.counter
            &&& run.collecting is Some ==> counts.reported == counts.last_count
        }),
    decreases events.len(),
{
    if events.len() > 0 {
        let policy = partial_policy(max_tasks);
        let front = events.drop_last();
        let before = task_run(policy, front);
        let run = task_run(policy, events);
        assert forall|i: int| 0 <= i < before.collected.len() implies hashed_message(
            #[trigger] before.collected[i],
        ) is Some by {
            assert(run.collected[i] == before.collected[i]);
        }
        lemma_counts(max_tasks, front);
        if let TaskEvent::Collected(outcome) = events.last() {
            assert(run.collected[run.collected.len() - 1] == outcome);
            assert(hashed_message(outcome) is Some);
        }
    }
}

/// Where all tasks hand something on, it is what each gives, in order.
pub proof fn lemma_handed_of_all<O, M>(hands_on: spec_fn(O) -> Option<M>, tasks: Seq<O>)
    requires
        forall|i: int| 0 <= i < tasks.len() ==> hands_on(#[trigger] tasks[i]) is Some,
    ensures
        handed_of(hands_on, tasks).len() == tasks.len(),
        forall|i: int|
            0 <= i < tasks.len() ==> #[trigger] handed_of(hands_on, tasks)[i] == hands_on(
                tasks[i],
            )->0,
    decreases tasks.len(),
{
    if tasks.len() > 0 {
        let front = tasks.drop_last();
        assert forall|i: int| 0 <= i < front.len() implies hands_on(#[trigger] front[i]) is Some by {
            assert(front[i] == tasks[i]);
        }
        lemma_handed_of_all(hands_on, front);
        assert(hands_on(tasks[tasks.len() - 1]) is Some);
    }
}

/// The reports add up: when the stage has finished and every file could be read, the counts that it
/// has reported sum to the number of files that it has handed on, which is the number of files that
/// came.
pub proof fn lemma_reports_add_up(max_tasks: usize, events: Seq<TaskEvent<TaskOutcome>>)
    requires
        has_finished(partial_policy(max_tasks), events),
        forall|i: int|
            0 <= i < task_run(partial_policy(max_tasks), events).started.len() ==> hashed_message(
                #[trigger] task_run(partial_policy(max_tasks), events).started[i],
            ) is Some,
    ensures
        counts_after(max_tasks, events).reported == handed_on(
            partial_policy(max_tasks),
            events,
        ).len(),
        counts_after(max_tasks, events).reported == task_run(
            partial_policy(max_tasks),
            events,
        ).started.len(),
{
    broadcast use vstd::seq_lib::group_to_multiset_ensures;

    let policy = partial_policy(max_tasks);
    let run = task_run(policy, events);
    lemma_partial_drains(max_tasks);
    lemma_tasks(policy, events);
    assert(run.running =~= Multiset::empty());
    assert(run.collected.to_multiset().add(run.running) =~= run.collected.to_multiset());
    assert forall|i: int| 0 <= i < run.collected.len() implies hashed_message(
        #[trigger] run.collected[i],
    ) is Some by {
        lemma_came_from(run.collected, run.started, i);
        let n = choose|n: int| 0 <= n < run.started.len() && run.started[n] == run.collected[i];
        assert(hashed_message(run.started[n]) is Some);
    }
    lemma_counts(max_tasks, events);
    assert forall|i: int| 0 <= i < run.collected.len() implies (policy.hands_on)(
        #[trigger] run.collected[i],
    ) is Some by {
        assert(hashed_message(run.collected[i]) is Some);
    }
    lemma_handed_of_all(policy.hands_on, run.collected);
    assert(run.collected.len() == run.collected.to_multiset().len());
    assert(run.started.len() == run.started.to_multiset().len());
}

/// What happens to a channel.
pub enum ChannelEvent<M> {
    /// A message is sent.
    Sent(M),
    /// Nothing will be sent any more.
    Closed,
    /// The message that has waited longest is received.
    Received,
}

/// How far a channel has come.
pub struct ChannelRun<M> {
    pub sent: Seq<M>,
    pub received: Seq<M>,
    pub waiting: Seq<M>,
    pub closed: bool,
}

/// The channel after events, from an empty one.
pub open spec fn channel_run<M>(events: Seq<ChannelEvent<M>>) -> ChannelRun<M>
    decreases events.len(),
{
    if events.len() == 0 {
        ChannelRun { sent: seq![], received: seq![], waiting: seq![], closed: false }
    } else {
        let run = channel_run(events.drop_last());
        match events.last() {
            ChannelEvent::Sent(m) => ChannelRun {
                sent: run.sent.push(m),
                waiting: run.waiting.push(m),
                ..run
            },
            ChannelEvent::Closed => ChannelRun { closed: true, ..run },
            ChannelEvent::Received => ChannelRun {
                received: run.received.push(run.waiting[0]),
                waiting: run.waiting.drop_first(),
                ..run
            },
        }
    }
}

/// Whether events can come one after the other: nothing is sent once the channel is closed, and a
/// message is received where one waits.
pub open spec fn channel_can_go<M>(events: Seq<ChannelEvent<M>>) -> bool
    decreases events.len(),
{
    events.len() == 0 || {
        let run = channel_run(events.drop_last());
        &&& channel_can_go(events.drop_last())
        &&& match events.last() {
            ChannelEvent::Sent(_) => !run.closed,
            ChannelEvent::Closed => !run.closed,
            ChannelEvent::Received => run.waiting.len() > 0,
        }
    }
}

/// Whether a filter that receives from a channel has stopped.
pub open spec fn has_stopped<M>(events: Seq<ChannelEvent<M>>) -> bool {
    let run = channel_run(events);
    &&& channel_can_go(events)
    &&& !goes_on_receiving(run.closed, run.waiting.len())
}

/// A filter that has stopped has received all that was ever sent to it, in order, whenever the
/// channel was closed.
pub proof fn lemma_nothing_sent_is_dropped<M>(events: Seq<ChannelEvent<M>>)
    requires
        has_stopped(events),
    ensures
        channel_run(events).received == channel_run(events).sent,
{
    lemma_channel(events);
    let run = channel_run(events);
    assert(run.received + run.waiting =~= run.received);
}

proof fn lemma_channel<M>(events: Seq<ChannelEvent<M>>)
    requires
        channel_can_go(events),
    ensures
        channel_run(events).sent == channel_run(events).received + channel_run(events).waiting,
    decreases events.len(),
{
    if events.len() > 0 {
        lemma_channel(events.drop_last());
        let run = channel_run(events);
        assert(run.sent =~= run.received + run.waiting);
    } else {
        let run = channel_run(events);
        assert(run.sent =~= run.received + run.waiting);
    }
}

} // verus!
