//! The actors of a run: which there are, what they start with, and the channels between them.

use crate::comparator::BytewiseFileComparator;
use crate::digest::Digest;
use crate::file_discovery_actors::{
    FileExclusionFilter, FileRecursionActor, FileSizeFilter, FileSizeMessage, INodeFilter,
};
use crate::full_hash::{FullHashFilter, FullHashMessage, FullHasher};
use crate::hard_linker::HardLinker;
use crate::json_dump::JsonDumper;
use crate::partial_hash::{PartialHashFilter, PartialHashMessage, PartialHasher};
use crate::path::FilePath;
use crate::path_order::{copy_paths, lemma_path_bytes_are_those_of_the_paths, path_bytes};
use crate::status::{no_status, StatusDisplay};
use crate::text::{copy_strings, texts};
use std::collections::VecDeque;
use vstd::prelude::*;

verus! {

/// What the user asks for.
pub struct Options {
    /// Where to look for files; the current directory if nothing is given.
    pub directory_entry_point: Option<Vec<FilePath>>,
    /// The extensions to limit the search to.
    pub included_extensions: Option<Vec<String>>,
    /// The extensions to leave out.
    pub excluded_extensions: Option<Vec<String>>,
    /// The paths to leave out.
    pub excluded_paths: Vec<FilePath>,
    /// Files with fewer bytes are left out.
    pub minimum_size: u64,
    /// Whether duplicates are replaced by links.
    pub hard_link: bool,
    /// Whether the user is asked about each.
    pub confirm_actions: bool,
    /// Whether a symbolic link is made where a hard link cannot be.
    pub fallback_to_symbolic: bool,
    /// Where duplicates are listed.
    pub json_dump: Option<FilePath>,
}

/// What is passed between two actors.
#[derive(Clone, Copy, Debug, PartialEq, Eq, Structural)]
pub enum Channel {
    /// The files that were found.
    Files,
    /// Those of them whose extensions are wanted.
    FilteredFiles,
    /// Every file once, with what is known of it.
    DistinctFiles,
    /// The files that share their size with another.
    SharedSizes,
    /// The files of which the start has been read.
    PartialHashes,
    /// Those that share their size and the digest of their start with another.
    SharedPartialHashes,
    /// The files that have been hashed.
    FullHashes,
    /// Those that share their size and digest with another.
    SharedFullHashes,
    /// The duplicates.
    Duplicates,
    /// The duplicates that are handed on when they are replaced.
    ForwardedDuplicates,
    /// The counts that are shown.
    Status,
}

/// An actor, as it is before it has received anything.
pub enum PlannedActor {
    Recursion(FileRecursionActor),
    Exclusion(FileExclusionFilter),
    INode(INodeFilter),
    FileSize(FileSizeFilter),
    PartialHash(PartialHasher),
    PartialFilter(PartialHashFilter),
    FullHash(FullHasher),
    FullFilter(FullHashFilter),
    Compare(BytewiseFileComparator),
    Link(HardLinker),
    /// Lists duplicates, in the file under the given path.
    Dump(JsonDumper, FilePath),
    Display(StatusDisplay),
}

/// An actor that is started, with its channels.
pub struct Task {
    pub actor: PlannedActor,
    /// Where its messages come from.
    pub input: Option<Channel>,
    /// Where its results go.
    pub output: Option<Channel>,
    /// Whether it sends counts to be shown.
    pub reports: bool,
}

/// What an actor does.
pub enum ActorKind {
    Recursion,
    Exclusion,
    INode,
    FileSize,
    PartialHash,
    PartialFilter,
    FullHash,
    FullFilter,
    Compare,
    Link,
    Dump,
    Display,
}

/// What an actor does, and its channels.
pub struct Wiring {
    pub kind: ActorKind,
    pub input: Option<Channel>,
    pub output: Option<Channel>,
    pub reports: bool,
}

/// What an actor does.
pub open spec fn kind_of(actor: PlannedActor) -> ActorKind {
    match actor {
        PlannedActor::Recursion(_) => ActorKind::Recursion,
        PlannedActor::Exclusion(_) => ActorKind::Exclusion,
        PlannedActor::INode(_) => ActorKind::INode,
        PlannedActor::FileSize(_) => ActorKind::FileSize,
        PlannedActor::PartialHash(_) => ActorKind::PartialHash,
        PlannedActor::PartialFilter(_) => ActorKind::PartialFilter,
        PlannedActor::FullHash(_) => ActorKind::FullHash,
        PlannedActor::FullFilter(_) => ActorKind::FullFilter,
        PlannedActor::Compare(_) => ActorKind::Compare,
        PlannedActor::Link(_) => ActorKind::Link,
        PlannedActor::Dump(_, _) => ActorKind::Dump,
        PlannedActor::Display(_) => ActorKind::Display,
    }
}

/// What the actor of a task does, and its channels.
pub open spec fn wiring_of(task: Task) -> Wiring {
    Wiring {
        kind: kind_of(task.actor),
        input: task.input,
        output: task.output,
        reports: task.reports,
    }
}

/// An actor between two channels.
pub open spec fn wire(
    kind: ActorKind,
    input: Option<Channel>,
    output: Option<Channel>,
    reports: bool,
) -> Wiring {
    Wiring { kind, input, output, reports }
}

/// How many bytes are read from the start of a file.
pub const READ_SIZE: usize = 4096;

impl Options {
    /// Whether files are chosen by their extensions.
    pub open spec fn filters_extensions(self) -> bool {
        self.excluded_extensions is Some || self.included_extensions is Some
    }

    /// Where the search begins.
    pub open spec fn entry_points(self) -> Seq<Seq<u8>> {
        match self.directory_entry_point {
            Some(paths) => path_bytes(paths@),
            None => seq![seq![46u8]],
        }
    }

    /// The actors up to the first that looks at files themselves.
    pub open spec fn finding(self) -> Seq<Wiring> {
        if self.filters_extensions() {
            seq![
                wire(ActorKind::Recursion, None, Some(Channel::Files), false),
                wire(
                    ActorKind::Exclusion,
                    Some(Channel::Files),
                    Some(Channel::FilteredFiles),
                    false,
                ),
                wire(
                    ActorKind::INode,
                    Some(Channel::FilteredFiles),
                    Some(Channel::DistinctFiles),
                    false,
                ),
            ]
        } else {
            seq![
                wire(ActorKind::Recursion, None, Some(Channel::Files), false),
                wire(ActorKind::INode, Some(Channel::Files), Some(Channel::DistinctFiles), false),
            ]
        }
    }

    /// The actors that find out which files are duplicates.
    pub open spec fn comparing(self) -> Seq<Wiring> {
        seq![
            wire(
                ActorKind::FileSize,
                Some(Channel::DistinctFiles),
                Some(Channel::SharedSizes),
                false,
            ),
            wire(
                ActorKind::PartialHash,
                Some(Channel::SharedSizes),
                Some(Channel::PartialHashes),
                true,
            ),
            wire(
                ActorKind::PartialFilter,
                Some(Channel::PartialHashes),
                Some(Channel::SharedPartialHashes),
                false,
            ),
            wire(
                ActorKind::FullHash,
                Some(Channel::SharedPartialHashes),
                Some(Channel::FullHashes),
                true,
            ),
            wire(
                ActorKind::FullFilter,
                Some(Channel::FullHashes),
                Some(Channel::SharedFullHashes),
                false,
            ),
            wire(
                ActorKind::Compare,
                Some(Channel::SharedFullHashes),
                Some(Channel::Duplicates),
                true,
            ),
        ]
    }

    /// The actors that deal with duplicates.
    pub open spec fn dealing(self) -> Seq<Wiring> {
        let link = wire(
            ActorKind::Link,
            Some(Channel::Duplicates),
            if self.json_dump is Some {
                Some(Channel::ForwardedDuplicates)
            } else {
                None
            },
            true,
        );
        let dump = wire(
            ActorKind::Dump,
            Some(
                if self.hard_link {
                    Channel::ForwardedDuplicates
                } else {
                    Channel::Duplicates
                },
            ),
            None,
            false,
        );
        if self.hard_link && self.json_dump is Some {
            seq![link, dump]
        } else if self.hard_link {
            seq![link]
        } else if self.json_dump is Some {
            seq![dump]
        } else {
            seq![]
        }
    }

    /// All actors, in the order in which they are started.
    pub open spec fn wirings(self) -> Seq<Wiring> {
        self.finding() + self.comparing() + self.dealing() + seq![
            wire(ActorKind::Display, Some(Channel::Status), None, false),
        ]
    }

    /// Whether an actor starts with what the user asks for, and with nothing received.
    pub open spec fn configures(self, actor: PlannedActor, max_tasks: usize) -> bool {
        match actor {
            PlannedActor::Recursion(a) => {
                &&& path_bytes(a.queue@) == self.entry_points()
                &&& path_bytes(a.excluded_paths@) == path_bytes(self.excluded_paths@)
            },
            PlannedActor::Exclusion(a) => {
                &&& same_texts(a.excluded_extensions, self.excluded_extensions)
                &&& same_texts(a.included_extensions, self.included_extensions)
            },
            PlannedActor::INode(a) => a.seen@ == Set::<(u64, u64)>::empty(),
            PlannedActor::FileSize(a) => {
                &&& a.minimum_size == self.minimum_size
                &&& a.held() == Map::<u64, Option<FileSizeMessage>>::empty()
            },
            PlannedActor::PartialHash(a) => a == (PartialHasher {
                read_size: READ_SIZE,
                max_tasks,
                counter: 0,
                last_count: 0,
            }),
            PlannedActor::PartialFilter(a) => a.held() == Map::<
                (u64, Digest),
                Option<PartialHashMessage>,
            >::empty(),
            PlannedActor::FullHash(a) => a == (FullHasher { max_tasks }),
            PlannedActor::FullFilter(a) => a.held() == Map::<
                (u64, Digest),
                Option<FullHashMessage>,
            >::empty(),
            PlannedActor::Compare(a) => a.well_formed() && forall|key: (u64, Digest)|
                (#[trigger] a.originals(key)).len() == 0,
            PlannedActor::Link(a) => a == (HardLinker {
                confirm_actions: self.confirm_actions,
                forwards: self.json_dump is Some,
                fallback_to_symbolic: self.fallback_to_symbolic,
            }),
            PlannedActor::Dump(a, output) => {
                &&& a.well_formed()
                &&& a@ == Map::<(u64, Digest), Map<Seq<char>, Seq<Seq<char>>>>::empty()
                &&& self.json_dump matches Some(path) && output@ == path@
            },
            PlannedActor::Display(a) => a.status == no_status() && a.read_this_round == 0,
        }
    }

    /// What the user is told when nothing is to be done about duplicates.
    pub fn hint(&self) -> (text: Option<String>)
        ensures
            text is Some <==> !self.hard_link && self.json_dump is None,
            text matches Some(said) ==> said@
                == "Specify -h or -j to make this program carry out an action. This will just print duplicates"@,
    {
        if !self.hard_link && self.json_dump.is_none() {
            Some(
                "Specify -h or -j to make this program carry out an action. This will just print duplicates".to_owned(),
            )
        } else {
            None
        }
    }
}

/// Whether two lists of strings, where there are any, hold the same texts.
pub open spec fn same_texts(a: Option<Vec<String>>, b: Option<Vec<String>>) -> bool {
    match (a, b) {
        (Some(a), Some(b)) => texts(a@) == texts(b@),
        (None, None) => true,
        _ => false,
    }
}

/// A copy of a list of strings, where there is one.
fn copy_extensions(list: &Option<Vec<String>>) -> (copy: Option<Vec<String>>)
    ensures
        same_texts(copy, *list),
        copy is Some <==> list is Some,
        copy is Some ==> copy->0@.len() == list->0@.len(),
        copy is Some ==> forall|n: int|
            0 <= n < copy->0@.len() ==> (#[trigger] copy->0@[n])@ == list->0@[n]@,
{
    match list {
        Some(list) => Some(copy_strings(list)),
        None => None,
    }
}

/// The walk as it begins.
fn first_walk(options: &Options) -> (walk: FileRecursionActor)
    ensures
        path_bytes(walk.queue@) == options.entry_points(),
        path_bytes(walk.excluded_paths@) == path_bytes(options.excluded_paths@),
        match options.directory_entry_point {
            Some(paths) => {
                &&& walk.queue@.len() == paths@.len()
                &&& forall|n: int|
                    0 <= n < walk.queue@.len() ==> (#[trigger] walk.queue@[n]).bytes@
                        == paths@[n].bytes@
            },
            None => walk.queue@.len() == 1 && walk.queue@[0].bytes@ == seq![46u8],
        },
        walk.excluded_paths@.len() == options.excluded_paths@.len(),
        forall|n: int|
            0 <= n < walk.excluded_paths@.len() ==> (#[trigger] walk.excluded_paths@[n]).bytes@
                == options.excluded_paths@[n].bytes@,
{
    let mut queue: VecDeque<FilePath> = VecDeque::new();
    match &options.directory_entry_point {
        Some(paths) => {
            let mut i: usize = 0;
            while i < paths.len()
                invariant
                    i <= paths@.len(),
                    queue@.len() == i,
                    forall|n: int| 0 <= n < i ==> (#[trigger] queue@[n])@ == paths@[n]@,
                decreases paths@.len() - i,
            {
                queue.push_back(paths[i].clone());
                i = i + 1;
            }
        },
        None => {
            let here = FilePath { bytes: vec![46u8] };
            assert(here@ =~= seq![46u8]);
            queue.push_back(here);
        },
    }
    assert(path_bytes(queue@) =~= options.entry_points());
    FileRecursionActor { queue, excluded_paths: copy_paths(&options.excluded_paths) }
}

/// The actors of a run, in the order in which they are started. `max_tasks` is how many files are
/// hashed at a time.
pub fn run_actors(options: &Options, max_tasks: usize) -> (tasks: Vec<Task>)
    ensures
        tasks@.map_values(|t: Task| wiring_of(t)) == options.wirings(),
        forall|i: int|
            0 <= i < tasks@.len() ==> options.configures((#[trigger] tasks@[i]).actor, max_tasks),
        ({
            &&& tasks@[0].actor matches PlannedActor::Recursion(walk)
            &&& tasks@[0].input is None && tasks@[0].output == Some(Channel::Files)
            &&& !tasks@[0].reports
            &&& match options.directory_entry_point {
                Some(paths) => {
                    &&& walk.queue@.len() == paths@.len()
                    &&& forall|n: int|
                        0 <= n < walk.queue@.len() ==> (#[trigger] walk.queue@[n]).bytes@
                            == paths@[n].bytes@
                },
                None => walk.queue@.len() == 1 && walk.queue@[0].bytes@ == seq![46u8],
            }
            &&& walk.excluded_paths@.len() == options.excluded_paths@.len()
            &&& forall|n: int|
                0 <= n < walk.excluded_paths@.len() ==> (#[trigger] walk.excluded_paths@[n]).bytes@
                    == options.excluded_paths@[n].bytes@
        }),
        ({
            let chosen: int = if options.excluded_extensions is Some
                || options.included_extensions is Some {
                1
            } else {
                0
            };
            let linked: int = if options.hard_link {
                1
            } else {
                0
            };
            let dumped: int = if options.json_dump is Some {
                1
            } else {
                0
            };
            &&& tasks@.len() == 9 + chosen + linked + dumped
            &&& chosen == 1 ==> {
                &&& tasks@[1].actor matches PlannedActor::Exclusion(a)
                &&& tasks@[1].input == Some(Channel::Files)
                &&& tasks@[1].output == Some(Channel::FilteredFiles)
                &&& !tasks@[1].reports
                &&& a.excluded_extensions is Some <==> options.excluded_extensions is Some
                &&& a.excluded_extensions is Some ==> {
                    let (own, given) = (
                        a.excluded_extensions->0@,
                        options.excluded_extensions->0@,
                    );
                    &&& own.len() == given.len()
                    &&& forall|n: int|
                        0 <= n < own.len() ==> (#[trigger] own[n])@ == given[n]@
                }
                &&& a.included_extensions is Some <==> options.included_extensions is Some
                &&& a.included_extensions is Some ==> {
                    let (own, given) = (
                        a.included_extensions->0@,
                        options.included_extensions->0@,
                    );
                    &&& own.len() == given.len()
                    &&& forall|n: int|
                        0 <= n < own.len() ==> (#[trigger] own[n])@ == given[n]@
                }
            }
            &&& tasks@[1 + chosen].actor matches PlannedActor::INode(a)
            &&& a.seen@.is_empty()
            &&& tasks@[1 + chosen].input == Some(
                if chosen == 1 {
                    Channel::FilteredFiles
                } else {
                    Channel::Files
                },
            )
            &&& tasks@[1 + chosen].output == Some(Channel::DistinctFiles)
            &&& !tasks@[1 + chosen].reports
            &&& tasks@[2 + chosen].actor matches PlannedActor::FileSize(b)
            &&& b.minimum_size == options.minimum_size
            &&& b.held().dom().is_empty()
            &&& tasks@[2 + chosen].input == Some(Channel::DistinctFiles)
            &&& tasks@[2 + chosen].output == Some(Channel::SharedSizes)
            &&& !tasks@[2 + chosen].reports
            &&& tasks@[3 + chosen].actor matches PlannedActor::PartialHash(c)
            &&& c.read_size == 4096 && c.max_tasks == max_tasks && c.counter == 0
            &&& tasks@[3 + chosen].input == Some(Channel::SharedSizes)
            &&& tasks@[3 + chosen].output == Some(Channel::PartialHashes)
            &&& tasks@[3 + chosen].reports
            &&& tasks@[4 + chosen].actor matches PlannedActor::PartialFilter(d)
            &&& d.held().dom().is_empty()
            &&& tasks@[4 + chosen].input == Some(Channel::PartialHashes)
            &&& tasks@[4 + chosen].output == Some(Channel::SharedPartialHashes)
            &&& !tasks@[4 + chosen].reports
            &&& tasks@[5 + chosen].actor matches PlannedActor::FullHash(e)
            &&& e.max_tasks == max_tasks
            &&& tasks@[5 + chosen].input == Some(Channel::SharedPartialHashes)
            &&& tasks@[5 + chosen].output == Some(Channel::FullHashes)
            &&& tasks@[5 + chosen].reports
            &&& tasks@[6 + chosen].actor matches PlannedActor::FullFilter(f)
            &&& f.held().dom().is_empty()
            &&& tasks@[6 + chosen].input == Some(Channel::FullHashes)
            &&& tasks@[6 + chosen].output == Some(Channel::SharedFullHashes)
            &&& !tasks@[6 + chosen].reports
            &&& tasks@[7 + chosen].actor matches PlannedActor::Compare(g)
            &&& g.map@.dom().is_empty()
            &&& tasks@[7 + chosen].input == Some(Channel::SharedFullHashes)
            &&& tasks@[7 + chosen].output == Some(Channel::Duplicates)
            &&& tasks@[7 + chosen].reports
            &&& linked == 1 ==> {
                let task = tasks@[8 + chosen];
                &&& task.actor matches PlannedActor::Link(linker)
                &&& linker.confirm_actions == options.confirm_actions
                &&& linker.forwards == (dumped == 1)
                &&& linker.fallback_to_symbolic == options.fallback_to_symbolic
                &&& task.input == Some(Channel::Duplicates)
                &&& task.output == if dumped == 1 {
                    Some(Channel::ForwardedDuplicates)
                } else {
                    None
                }
                &&& task.reports
            }
            &&& dumped == 1 ==> {
                let task = tasks@[8 + chosen + linked];
                &&& task.actor matches PlannedActor::Dump(dumper, output)
                &&& dumper.map@.dom().is_empty()
                &&& output.bytes@ == options.json_dump->0.bytes@
                &&& task.input == Some(
                    if linked == 1 {
                        Channel::ForwardedDuplicates
                    } else {
                        Channel::Duplicates
                    },
                )
                &&& task.output is None
                &&& !task.reports
            }
            &&& tasks@.last().actor matches PlannedActor::Display(shown)
            &&& shown.read_this_round == 0
            &&& shown.status.partial_hashes == 0 && shown.status.full_hashes == 0
            &&& shown.status.duplicates == 0 && shown.status.hardlinks == 0
            &&& shown.status.symbolic_links == 0
            &&& tasks@.last().input == Some(Channel::Status)
            &&& tasks@.last().output is None
            &&& !tasks@.last().reports
        }),
{
    let mut tasks: Vec<Task> = Vec::new();
    let filters = options.excluded_extensions.is_some() || options.included_extensions.is_some();
    tasks.push(
        Task {
            actor: PlannedActor::Recursion(first_walk(options)),
            input: None,
            output: Some(Channel::Files),
            reports: false,
        },
    );
    if filters {
        tasks.push(
            Task {
                actor: PlannedActor::Exclusion(
                    FileExclusionFilter {
                        excluded_extensions: copy_extensions(&options.excluded_extensions),
                        included_extensions: copy_extensions(&options.included_extensions),
                    },
                ),
                input: Some(Channel::Files),
                output: Some(Channel::FilteredFiles),
                reports: false,
            },
        );
    }
    tasks.push(
        Task {
            actor: PlannedActor::INode(INodeFilter::new()),
            input: Some(
                if filters {
                    Channel::FilteredFiles
                } else {
                    Channel::Files
                },
            ),
            output: Some(Channel::DistinctFiles),
            reports: false,
        },
    );
    let ghost view = |t: Task| wiring_of(t);
    assert(tasks@.map_values(view) =~= options.finding());
    tasks.push(
        Task {
            actor: PlannedActor::FileSize(FileSizeFilter::new(options.minimum_size)),
            input: Some(Channel::DistinctFiles),
            output: Some(Channel::SharedSizes),
            reports: false,
        },
    );
    tasks.push(
        Task {
            actor: PlannedActor::PartialHash(PartialHasher::new(READ_SIZE, max_tasks)),
            input: Some(Channel::SharedSizes),
            output: Some(Channel::PartialHashes),
            reports: true,
        },
    );
    tasks.push(
        Task {
            actor: PlannedActor::PartialFilter(PartialHashFilter::new()),
            input: Some(Channel::PartialHashes),
            output: Some(Channel::SharedPartialHashes),
            reports: false,
        },
    );
    tasks.push(
        Task {
            actor: PlannedActor::FullHash(FullHasher { max_tasks }),
            input: Some(Channel::SharedPartialHashes),
            output: Some(Channel::FullHashes),
            reports: true,
        },
    );
    tasks.push(
        Task {
            actor: PlannedActor::FullFilter(FullHashFilter::new()),
            input: Some(Channel::FullHashes),
            output: Some(Channel::SharedFullHashes),
            reports: false,
        },
    );
    tasks.push(
        Task {
            actor: PlannedActor::Compare(BytewiseFileComparator::new()),
            input: Some(Channel::SharedFullHashes),
            output: Some(Channel::Duplicates),
            reports: true,
        },
    );
    assert(tasks@.map_values(view) =~= options.finding() + options.comparing());
    if options.hard_link {
        tasks.push(
            Task {
                actor: PlannedActor::Link(
                    HardLinker {
                        confirm_actions: options.confirm_actions,
                        forwards: options.json_dump.is_some(),
                        fallback_to_symbolic: options.fallback_to_symbolic,
                    },
                ),
                input: Some(Channel::Duplicates),
                output: if options.json_dump.is_some() {
                    Some(Channel::ForwardedDuplicates)
                } else {
                    None
                },
                reports: true,
            },
        );
    }
    if let Some(path) = &options.json_dump {
        tasks.push(
            Task {
                actor: PlannedActor::Dump(JsonDumper::new(), path.clone()),
                input: Some(
                    if options.hard_link {
                        Channel::ForwardedDuplicates
                    } else {
                        Channel::Duplicates
                    },
                ),
                output: None,
                reports: false,
            },
        );
    }
    assert(tasks@.map_values(view) =~= options.finding() + options.comparing()
        + options.dealing());
    tasks.push(
        Task {
            actor: PlannedActor::Display(StatusDisplay::new()),
            input: Some(Channel::Status),
            output: None,
            reports: false,
        },
    );
    assert(tasks@.map_values(view) =~= options.wirings());
    tasks
}

/// The only channel that is written and not read: that of the duplicates, when nothing is to be
/// done about them.
pub open spec fn goes_nowhere(options: Options, channel: Channel) -> bool {
    channel == Channel::Duplicates && !options.hard_link && options.json_dump is None
}

/// The actors form one chain from the walk to the last that deals with duplicates: what is written
/// to a channel is read by one later actor, unless nothing is to be done about duplicates, and what
/// is read from a channel other than that of the counts is written by one earlier actor.
pub proof fn lemma_actors_form_a_chain(options: Options)
    ensures
        ({
            let w = options.wirings();
            &&& forall|i: int, j: int|
                #![trigger w[i], w[j]]
                0 <= i < j < w.len() ==> w[i].input != w[j].input && (w[i].output != w[j].output
                    || w[i].output is None)
            &&& forall|i: int|
                #![trigger w[i]]
                0 <= i < w.len() && w[i].output is Some ==> goes_nowhere(options, w[i].output->0)
                    || (i + 1 < w.len() && w[i + 1].input == w[i].output)
            &&& forall|i: int|
                #![trigger w[i]]
                0 <= i < w.len() && w[i].input is Some && w[i].input != Some(Channel::Status) ==> i
                    > 0 && w[i - 1].output == w[i].input
        }),
{
    let w = options.wirings();
    let f = options.finding();
    let c = options.comparing();
    let d = options.dealing();
    assert forall|i: int| #![trigger w[i]] 0 <= i < w.len() implies w[i] == if i < f.len() {
        f[i]
    } else if i < f.len() + c.len() {
        c[i - f.len()]
    } else if i < f.len() + c.len() + d.len() {
        d[i - f.len() - c.len()]
    } else {
        wire(ActorKind::Display, Some(Channel::Status), None, false)
    } by {}
}

/// The walk starts with exactly the directories that are given, in their order and byte for byte as
/// they are given, and with the current directory only where none are given; it leaves out exactly
/// the paths that are given to be left out.
pub proof fn lemma_walk_starts_where_it_is_told(
    options: Options,
    walk: FileRecursionActor,
    max_tasks: usize,
)
    requires
        options.configures(PlannedActor::Recursion(walk), max_tasks),
    ensures
        match options.directory_entry_point {
            Some(paths) => {
                &&& walk.queue@.len() == paths@.len()
                &&& forall|n: int|
                    0 <= n < paths@.len() ==> (#[trigger] walk.queue@[n]).bytes@
                        == paths@[n].bytes@
            },
            None => walk.queue@.len() == 1 && walk.queue@[0].bytes@ == seq![46u8],
        },
        walk.excluded_paths@.len() == options.excluded_paths@.len(),
        forall|n: int|
            0 <= n < walk.excluded_paths@.len() ==> (#[trigger] walk.excluded_paths@[n]).bytes@
                == options.excluded_paths@[n].bytes@,
{
    lemma_path_bytes_are_those_of_the_paths(walk.queue@);
    lemma_path_bytes_are_those_of_the_paths(walk.excluded_paths@);
    lemma_path_bytes_are_those_of_the_paths(options.excluded_paths@);
    match options.directory_entry_point {
        Some(paths) => {
            lemma_path_bytes_are_those_of_the_paths(paths@);
            assert forall|n: int| 0 <= n < paths@.len() implies (
            #[trigger] walk.queue@[n]).bytes@ == paths@[n].bytes@ by {
                assert(path_bytes(walk.queue@)[n] == path_bytes(paths@)[n]);
            }
        },
        None => {
            assert(path_bytes(walk.queue@)[0] == seq![46u8]);
        },
    }
    assert forall|n: int| 0 <= n < walk.excluded_paths@.len() implies (
    #[trigger] walk.excluded_paths@[n]).bytes@ == options.excluded_paths@[n].bytes@ by {
        assert(path_bytes(walk.excluded_paths@)[n] == path_bytes(options.excluded_paths@)[n]);
    }
}

} // verus!
