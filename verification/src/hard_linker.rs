//! Replacing duplicates by links, step by step, so that no step loses a file.

use crate::comparator::DuplicateMessage;
use crate::path::{backup_path, lossy_text, name_end, name_start, FilePath, SLASH};
use crate::status::StatusUpdate;
use vstd::prelude::*;
use vstd::string::*;

verus! {

/// The kind of link that is made.
#[derive(Clone, Copy, Debug, PartialEq, Eq, Structural)]
pub enum LinkKind {
    Hard,
    Symbolic,
}

/// What is to be done next for a duplicate.
#[derive(Clone, Copy, Debug, PartialEq, Eq, Structural)]
pub enum LinkPhase {
    /// Ask the user.
    Ask,
    /// Find out the devices of the two files.
    Inspect,
    /// Rename the duplicate to its backup path.
    MoveAside(LinkKind),
    /// Make a link to the original in the place of the duplicate.
    Link(LinkKind),
    /// Rename the backup to the path of the duplicate.
    Restore,
    /// Remove the backup.
    RemoveBackup(LinkKind),
    /// Nothing; report the link, if one was made.
    Finished(Option<StatusUpdate>),
}

/// What has come of what was to be done.
#[derive(Clone, Copy, Debug, PartialEq, Eq, Structural)]
pub enum LinkEvent {
    /// The character that the user has typed.
    Answered(char),
    /// The devices that the two files are on.
    Inspected { original: u64, duplicate: u64 },
    /// The duplicate has been renamed to its backup path.
    MovedAside,
    /// Whether the link could be made.
    Linked(bool),
    /// The backup has been renamed to the path of the duplicate.
    Restored,
    /// The backup has been removed.
    Removed,
}

/// How duplicates are replaced.
#[derive(Clone, Copy, Debug, PartialEq, Eq, Structural)]
pub struct HardLinker {
    /// Whether the user is asked about each.
    pub confirm_actions: bool,
    /// Whether duplicates are handed on to be listed.
    pub forwards: bool,
    /// Whether a symbolic link is made where a hard link cannot be, such as where the files are on
    /// different devices.
    pub fallback_to_symbolic: bool,
}

/// A duplicate that is being replaced.
#[derive(Debug, PartialEq, Eq)]
pub struct LinkJob {
    pub message: DuplicateMessage,
    /// Where the duplicate is kept until the link is made.
    pub backup: FilePath,
    pub phase: LinkPhase,
}

/// The report that a link was made.
pub open spec fn link_report(kind: LinkKind) -> StatusUpdate {
    match kind {
        LinkKind::Hard => StatusUpdate::HardLinks(1),
        LinkKind::Symbolic => StatusUpdate::SymbolicLinks(1),
    }
}

/// The kind of link between files on the given devices, if one is made at all.
pub open spec fn link_kind(linker: HardLinker, original: u64, duplicate: u64) -> Option<LinkKind> {
    if original == duplicate {
        Some(LinkKind::Hard)
    } else if linker.fallback_to_symbolic {
        Some(LinkKind::Symbolic)
    } else {
        None
    }
}

/// What is to be done first.
pub open spec fn first_phase(linker: HardLinker) -> LinkPhase {
    if linker.confirm_actions {
        LinkPhase::Ask
    } else {
        LinkPhase::Inspect
    }
}

/// What is to be done after an event. An event that does not belong to what was to be done changes
/// nothing.
pub open spec fn next_phase(linker: HardLinker, phase: LinkPhase, event: LinkEvent) -> LinkPhase {
    match (phase, event) {
        (LinkPhase::Ask, LinkEvent::Answered(c)) => if c == 'y' {
            LinkPhase::Inspect
        } else {
            LinkPhase::Finished(None)
        },
        (LinkPhase::Inspect, LinkEvent::Inspected { original, duplicate }) => match link_kind(
            linker,
            original,
            duplicate,
        ) {
            Some(kind) => LinkPhase::MoveAside(kind),
            None => LinkPhase::Finished(None),
        },
        (LinkPhase::MoveAside(kind), LinkEvent::MovedAside) => LinkPhase::Link(kind),
        (LinkPhase::Link(kind), LinkEvent::Linked(made)) => if made {
            LinkPhase::RemoveBackup(kind)
        } else if kind == LinkKind::Hard && linker.fallback_to_symbolic {
            LinkPhase::Link(LinkKind::Symbolic)
        } else {
            LinkPhase::Restore
        },
        (LinkPhase::Restore, LinkEvent::Restored) => LinkPhase::Finished(None),
        (LinkPhase::RemoveBackup(kind), LinkEvent::Removed) => LinkPhase::Finished(
            Some(link_report(kind)),
        ),
        (phase, _) => phase,
    }
}

/// What the user is asked.
pub open spec fn question(duplicate: Seq<char>, original: Seq<char>) -> Seq<char> {
    "Do you want to link "@ + duplicate + " to "@ + original + "?"@
}

/// What the user is asked about files that read as given.
pub fn question_text(duplicate: &str, original: &str) -> (text: String)
    ensures
        text@ == question(duplicate@, original@),
        text@ == "Do you want to link "@ + duplicate@ + " to "@ + original@ + "?"@,
{
    let mut text = "Do you want to link ".to_owned();
    text.append(duplicate);
    text.append(" to ");
    text.append(original);
    text.append("?");
    text
}

impl HardLinker {
    /// Begins to replace a duplicate. Gives what is handed on to be listed, if anything.
    pub fn begin(&self, message: DuplicateMessage) -> (result: (LinkJob, Option<DuplicateMessage>))
        ensures
            result.0.message == message,
            result.0.backup@ == backup_path(message.duplicate@),
            result.0.phase == first_phase(*self),
            result.0.phase == if self.confirm_actions {
                LinkPhase::Ask
            } else {
                LinkPhase::Inspect
            },
            self.forwards ==> (result.1 matches Some(copy) && copy.key() == message.key()
                && copy.file_size == message.file_size && copy.hash == message.hash
                && copy.original@ == message.original@ && copy.duplicate@ == message.duplicate@),
            !self.forwards ==> result.1 is None,
    {
        let copy = if self.forwards {
            Some(message.clone())
        } else {
            None
        };
        let backup = message.duplicate.backup();
        let phase = if self.confirm_actions {
            LinkPhase::Ask
        } else {
            LinkPhase::Inspect
        };
        (LinkJob { message, backup, phase }, copy)
    }

    /// What the user is asked about a duplicate.
    pub fn ask(&self, job: &LinkJob) -> (text: String)
        ensures
            text@ == question(
                lossy_text(job.message.duplicate@),
                lossy_text(job.message.original@),
            ),
            text@ == "Do you want to link "@ + lossy_text(job.message.duplicate@) + " to "@
                + lossy_text(job.message.original@) + "?"@,
    {
        question_text(
            job.message.duplicate.to_text().as_str(),
            job.message.original.to_text().as_str(),
        )
    }

    /// Goes on after an event.
    pub fn advance(&self, job: &mut LinkJob, event: LinkEvent)
        ensures
            final(job).phase == next_phase(*self, old(job).phase, event),
            match (old(job).phase, event) {
                (LinkPhase::Ask, LinkEvent::Answered(c)) => final(job).phase == if c == 'y' {
                    LinkPhase::Inspect
                } else {
                    LinkPhase::Finished(None)
                },
                (
                    LinkPhase::Inspect,
                    LinkEvent::Inspected { original, duplicate },
                ) => final(job).phase == if original == duplicate {
                    LinkPhase::MoveAside(LinkKind::Hard)
                } else if self.fallback_to_symbolic {
                    LinkPhase::MoveAside(LinkKind::Symbolic)
                } else {
                    LinkPhase::Finished(None)
                },
                (LinkPhase::MoveAside(kind), LinkEvent::MovedAside) => final(job).phase
                    == LinkPhase::Link(kind),
                (LinkPhase::Link(kind), LinkEvent::Linked(true)) => final(job).phase
                    == LinkPhase::RemoveBackup(kind),
                (LinkPhase::Link(kind), LinkEvent::Linked(false)) => final(job).phase == if kind
                    == LinkKind::Hard && self.fallback_to_symbolic {
                    LinkPhase::Link(LinkKind::Symbolic)
                } else {
                    LinkPhase::Restore
                },
                (LinkPhase::Restore, LinkEvent::Restored) => final(job).phase
                    == LinkPhase::Finished(None),
                (LinkPhase::RemoveBackup(LinkKind::Hard), LinkEvent::Removed) => final(job).phase
                    == LinkPhase::Finished(Some(StatusUpdate::HardLinks(1))),
                (
                    LinkPhase::RemoveBackup(LinkKind::Symbolic),
                    LinkEvent::Removed,
                ) => final(job).phase == LinkPhase::Finished(Some(StatusUpdate::SymbolicLinks(1))),
                _ => final(job).phase == old(job).phase,
            },
            final(job).message == old(job).message,
            final(job).backup == old(job).backup,
    {
        job.phase = match (job.phase, event) {
            (LinkPhase::Ask, LinkEvent::Answered(c)) => {
                if c == 'y' {
                    LinkPhase::Inspect
                } else {
                    LinkPhase::Finished(None)
                }
            },
            (LinkPhase::Inspect, LinkEvent::Inspected { original, duplicate }) => {
                if original == duplicate {
                    LinkPhase::MoveAside(LinkKind::Hard)
                } else if self.fallback_to_symbolic {
                    LinkPhase::MoveAside(LinkKind::Symbolic)
                } else {
                    LinkPhase::Finished(None)
                }
            },
            (LinkPhase::MoveAside(kind), LinkEvent::MovedAside) => LinkPhase::Link(kind),
            (LinkPhase::Link(kind), LinkEvent::Linked(made)) => {
                if made {
                    LinkPhase::RemoveBackup(kind)
                } else if kind == LinkKind::Hard && self.fallback_to_symbolic {
                    LinkPhase::Link(LinkKind::Symbolic)
                } else {
                    LinkPhase::Restore
                }
            },
            (LinkPhase::Restore, LinkEvent::Restored) => LinkPhase::Finished(None),
            (LinkPhase::RemoveBackup(LinkKind::Hard), LinkEvent::Removed) => LinkPhase::Finished(
                Some(StatusUpdate::HardLinks(1)),
            ),
            (
                LinkPhase::RemoveBackup(LinkKind::Symbolic),
                LinkEvent::Removed,
            ) => LinkPhase::Finished(Some(StatusUpdate::SymbolicLinks(1))),
            (phase, _) => phase,
        };
    }
}

/// The content that is read under every path.
pub type Files = Map<Seq<u8>, Seq<u8>>;

/// Where a symbolic link in the place of the duplicate leads to. It holds the path of the original,
/// which is followed from the directory of the link unless it is absolute.
pub open spec fn link_target(original: Seq<u8>, duplicate: Seq<u8>) -> Seq<u8> {
    if original.len() > 0 && original[0] == SLASH {
        original
    } else {
        duplicate.take(name_start(duplicate, name_end(duplicate))) + original
    }
}

/// The files after what was to be done has been done. A hard link makes the path of the duplicate
/// read as the original, a symbolic link makes it read as what it leads to.
pub open spec fn files_after(
    files: Files,
    phase: LinkPhase,
    original: Seq<u8>,
    duplicate: Seq<u8>,
    backup: Seq<u8>,
    event: LinkEvent,
) -> Files {
    match (phase, event) {
        (LinkPhase::MoveAside(_), LinkEvent::MovedAside) => files.remove(duplicate).insert(
            backup,
            files[duplicate],
        ),
        (LinkPhase::Link(LinkKind::Hard), LinkEvent::Linked(true)) => files.insert(
            duplicate,
            files[original],
        ),
        (LinkPhase::Link(LinkKind::Symbolic), LinkEvent::Linked(true)) => {
            let target = link_target(original, duplicate);
            if files.contains_key(target) {
                files.insert(duplicate, files[target])
            } else {
                files
            }
        },
        (LinkPhase::Restore, LinkEvent::Restored) => files.remove(backup).insert(
            duplicate,
            files[backup],
        ),
        (LinkPhase::RemoveBackup(_), LinkEvent::Removed) => files.remove(backup),
        _ => files,
    }
}

/// What is to be done after some events, from the start.
pub open spec fn phase_after(linker: HardLinker, events: Seq<LinkEvent>) -> LinkPhase
    decreases events.len(),
{
    if events.len() == 0 {
        first_phase(linker)
    } else {
        next_phase(linker, phase_after(linker, events.drop_last()), events.last())
    }
}

/// The files after some events, from `files` at the start.
pub open spec fn files_after_all(
    linker: HardLinker,
    files: Files,
    original: Seq<u8>,
    duplicate: Seq<u8>,
    backup: Seq<u8>,
    events: Seq<LinkEvent>,
) -> Files
    decreases events.len(),
{
    if events.len() == 0 {
        files
    } else {
        files_after(
            files_after_all(linker, files, original, duplicate, backup, events.drop_last()),
            phase_after(linker, events.drop_last()),
            original,
            duplicate,
            backup,
            events.last(),
        )
    }
}

/// Whether events can come: a hard link can only be made to a file that is there.
pub open spec fn can_happen(
    linker: HardLinker,
    files: Files,
    original: Seq<u8>,
    duplicate: Seq<u8>,
    backup: Seq<u8>,
    events: Seq<LinkEvent>,
) -> bool
    decreases events.len(),
{
    events.len() == 0 || {
        let front = events.drop_last();
        &&& can_happen(linker, files, original, duplicate, backup, front)
        &&& (phase_after(linker, front) == LinkPhase::Link(LinkKind::Hard) && events.last()
            == LinkEvent::Linked(true)) ==> files_after_all(
            linker,
            files,
            original,
            duplicate,
            backup,
            front,
        ).contains_key(original)
    }
}

/// Whether a symbolic link was made in the course of some events.
pub open spec fn symbolic_link_made(linker: HardLinker, events: Seq<LinkEvent>) -> bool
    decreases events.len(),
{
    events.len() > 0 && {
        let front = events.drop_last();
        ||| symbolic_link_made(linker, front)
        ||| phase_after(linker, front) == LinkPhase::Link(LinkKind::Symbolic) && events.last()
            == LinkEvent::Linked(true)
    }
}

/// Whether a symbolic link in the place of the duplicate leads to a file other than the duplicate
/// itself, with the content of the original.
pub open spec fn leads_back(files: Files, original: Seq<u8>, duplicate: Seq<u8>) -> bool {
    let target = link_target(original, duplicate);
    &&& target != duplicate
    &&& files.contains_key(target)
    &&& files[target] == files[original]
}

/// Replacing a duplicate changes nothing of what is read under any path, whatever the user answers
/// and whether or not the link can be made; and all the time the content of the duplicate can be
/// read under its own path or under that of its backup. This asks that the two files have the same
/// content, that no file is in the place of the backup, and, where a symbolic link was made, that
/// it leads to the original or to a file with its content.
pub proof fn lemma_linking_loses_nothing(
    linker: HardLinker,
    files: Files,
    original: Seq<u8>,
    duplicate: Seq<u8>,
    events: Seq<LinkEvent>,
)
    requires
        files.contains_key(original),
        files.contains_key(duplicate),
        files[original] == files[duplicate],
        !files.contains_key(backup_path(duplicate)),
        symbolic_link_made(linker, events) ==> leads_back(files, original, duplicate),
        can_happen(linker, files, original, duplicate, backup_path(duplicate), events),
    ensures
        ({
            let backup = backup_path(duplicate);
            let now = files_after_all(linker, files, original, duplicate, backup, events);
            &&& phase_after(linker, events) is Finished ==> now == files
            &&& (now.contains_key(duplicate) && now[duplicate] == files[duplicate]) || (
            now.contains_key(backup) && now[backup] == files[duplicate])
            &&& forall|path: Seq<u8>|
                path != duplicate && path != backup && files.contains_key(path)
                    ==> #[trigger] now.contains_key(path) && now[path] == files[path]
        }),
{
    lemma_linking(linker, files, original, duplicate, backup_path(duplicate), events);
}

proof fn lemma_linking(
    linker: HardLinker,
    files: Files,
    original: Seq<u8>,
    duplicate: Seq<u8>,
    backup: Seq<u8>,
    events: Seq<LinkEvent>,
)
    requires
        files.contains_key(original),
        files.contains_key(duplicate),
        files[original] == files[duplicate],
        !files.contains_key(backup),
        symbolic_link_made(linker, events) ==> leads_back(files, original, duplicate),
        can_happen(linker, files, original, duplicate, backup, events),
    ensures
        files_after_all(linker, files, original, duplicate, backup, events) == match phase_after(
            linker,
            events,
        ) {
            LinkPhase::Link(_) | LinkPhase::Restore => files.remove(duplicate).insert(
                backup,
                files[duplicate],
            ),
            LinkPhase::RemoveBackup(_) => files.insert(backup, files[duplicate]),
            _ => files,
        },
    decreases events.len(),
{
    if events.len() > 0 {
        let front = events.drop_last();
        lemma_linking(linker, files, original, duplicate, backup, front);
        let now = files_after_all(linker, files, original, duplicate, backup, events);
        match phase_after(linker, events) {
            LinkPhase::Link(_) | LinkPhase::Restore => {
                assert(now =~= files.remove(duplicate).insert(backup, files[duplicate]));
            },
            LinkPhase::RemoveBackup(_) => {
                assert(now =~= files.insert(backup, files[duplicate]));
            },
            _ => {
                assert(now =~= files);
            },
        }
    }
}

/// Where the user is asked, nothing is done to any file and no link is reported unless they have
/// answered `y`.
pub proof fn lemma_nothing_happens_without_consent(
    linker: HardLinker,
    files: Files,
    original: Seq<u8>,
    duplicate: Seq<u8>,
    backup: Seq<u8>,
    events: Seq<LinkEvent>,
)
    requires
        linker.confirm_actions,
        !events.contains(LinkEvent::Answered('y')),
    ensures
        files_after_all(linker, files, original, duplicate, backup, events) == files,
        phase_after(linker, events) is Ask || phase_after(linker, events) == LinkPhase::Finished(
            None,
        ),
    decreases events.len(),
{
    if events.len() > 0 {
        let front = events.drop_last();
        assert forall|e: LinkEvent| front.contains(e) implies events.contains(e) by {
            let i = choose|i: int| 0 <= i < front.len() && front[i] == e;
            assert(events[i] == e);
        }
        lemma_nothing_happens_without_consent(linker, files, original, duplicate, backup, front);
        assert(events[events.len() - 1] == events.last());
        assert(events.contains(events.last()));
    }
}

/// Whether a phase is on the way to a link of a kind, or at its end.
pub open spec fn makes(phase: LinkPhase, kind: LinkKind) -> bool {
    ||| phase == LinkPhase::MoveAside(kind)
    ||| phase == LinkPhase::Link(kind)
    ||| phase == LinkPhase::RemoveBackup(kind)
    ||| phase == LinkPhase::Finished(Some(link_report(kind)))
}

/// No symbolic link is made unless the user has asked for one where a hard link cannot be made.
pub proof fn lemma_symbolic_links_only_where_wanted(linker: HardLinker, events: Seq<LinkEvent>)
    requires
        !linker.fallback_to_symbolic,
    ensures
        !makes(phase_after(linker, events), LinkKind::Symbolic),
    decreases events.len(),
{
    if events.len() > 0 {
        lemma_symbolic_links_only_where_wanted(linker, events.drop_last());
    }
}

/// No hard link is tried unless the two files have been found to be on the same device.
pub proof fn lemma_hard_links_only_on_one_device(linker: HardLinker, events: Seq<LinkEvent>)
    requires
        forall|i: int|
            0 <= i < events.len() ==> ((#[trigger] events[i]) matches LinkEvent::Inspected {
                original,
                duplicate,
            } ==> original != duplicate),
    ensures
        !makes(phase_after(linker, events), LinkKind::Hard),
    decreases events.len(),
{
    if events.len() > 0 {
        let front = events.drop_last();
        assert forall|i: int| 0 <= i < front.len() implies ((
        #[trigger] front[i]) matches LinkEvent::Inspected { original, duplicate } ==> original
            != duplicate) by {
            assert(front[i] == events[i]);
        }
        lemma_hard_links_only_on_one_device(linker, front);
        assert(events[events.len() - 1] == events.last());
    }
}

/// The events with which the user agrees: that they answer `y` where they are asked, none where
/// they are not.
pub open spec fn consent(linker: HardLinker) -> Seq<LinkEvent> {
    if linker.confirm_actions {
        seq![LinkEvent::Answered('y')]
    } else {
        seq![]
    }
}

/// Whatever the user has set: once they agree where they are asked, two files on one device get a
/// hard link if every step succeeds. The duplicate is moved aside, the link is made in its place,
/// the backup is removed, and one hard link is reported. Unless paths coincide or the place of the
/// backup is taken, the path of the duplicate in the end reads as the original, and every other
/// path as before.
pub proof fn lemma_files_on_one_device_are_linked(
    linker: HardLinker,
    device: u64,
    files: Files,
    original: Seq<u8>,
    duplicate: Seq<u8>,
    backup: Seq<u8>,
)
    ensures
        ({
            let inspected = consent(linker).push(
                LinkEvent::Inspected { original: device, duplicate: device },
            );
            let moved = inspected.push(LinkEvent::MovedAside);
            let linked = moved.push(LinkEvent::Linked(true));
            let removed = linked.push(LinkEvent::Removed);
            &&& phase_after(linker, consent(linker)) == LinkPhase::Inspect
            &&& phase_after(linker, inspected) == LinkPhase::MoveAside(LinkKind::Hard)
            &&& phase_after(linker, moved) == LinkPhase::Link(LinkKind::Hard)
            &&& phase_after(linker, linked) == LinkPhase::RemoveBackup(LinkKind::Hard)
            &&& phase_after(linker, removed) == LinkPhase::Finished(
                Some(StatusUpdate::HardLinks(1)),
            )
            &&& original != duplicate && original != backup && duplicate != backup
                && !files.contains_key(backup) ==> files_after_all(
                linker,
                files,
                original,
                duplicate,
                backup,
                removed,
            ) == files.insert(duplicate, files[original])
        }),
{
    lemma_after_consent(linker, files, original, duplicate, backup);
    let inspected = consent(linker).push(
        LinkEvent::Inspected { original: device, duplicate: device },
    );
    lemma_one_more(linker, files, original, duplicate, backup, consent(linker), inspected.last());
    lemma_link_after(
        linker,
        files,
        original,
        duplicate,
        backup,
        inspected,
        LinkKind::Hard,
    );
}

/// Whatever else the user has set: once they agree where they are asked, two files on different
/// devices get a symbolic link if they want one there and every step succeeds, and one symbolic
/// link is reported; the path of the duplicate reads as what the link leads to. If they want none,
/// nothing is done.
pub proof fn lemma_files_on_two_devices_are_linked_where_wanted(
    linker: HardLinker,
    first: u64,
    second: u64,
    files: Files,
    original: Seq<u8>,
    duplicate: Seq<u8>,
    backup: Seq<u8>,
)
    requires
        first != second,
    ensures
        ({
            let inspected = consent(linker).push(
                LinkEvent::Inspected { original: first, duplicate: second },
            );
            let moved = inspected.push(LinkEvent::MovedAside);
            let linked = moved.push(LinkEvent::Linked(true));
            let removed = linked.push(LinkEvent::Removed);
            &&& linker.fallback_to_symbolic ==> {
                &&& phase_after(linker, inspected) == LinkPhase::MoveAside(LinkKind::Symbolic)
                &&& phase_after(linker, moved) == LinkPhase::Link(LinkKind::Symbolic)
                &&& phase_after(linker, linked) == LinkPhase::RemoveBackup(LinkKind::Symbolic)
                &&& phase_after(linker, removed) == LinkPhase::Finished(
                    Some(StatusUpdate::SymbolicLinks(1)),
                )
                &&& duplicate != backup && !files.contains_key(backup) && leads_back(
                    files,
                    original,
                    duplicate,
                ) ==> files_after_all(linker, files, original, duplicate, backup, removed)
                    == files.insert(duplicate, files[original])
            }
            &&& !linker.fallback_to_symbolic ==> {
                &&& phase_after(linker, inspected) == LinkPhase::Finished(None)
                &&& files_after_all(linker, files, original, duplicate, backup, inspected) == files
            }
        }),
{
    lemma_after_consent(linker, files, original, duplicate, backup);
    let inspected = consent(linker).push(
        LinkEvent::Inspected { original: first, duplicate: second },
    );
    lemma_one_more(linker, files, original, duplicate, backup, consent(linker), inspected.last());
    if linker.fallback_to_symbolic {
        lemma_link_after(
            linker,
            files,
            original,
            duplicate,
            backup,
            inspected,
            LinkKind::Symbolic,
        );
    }
}

/// A hard link that could not be made is tried as a symbolic link where the user wants one, and
/// else the duplicate is put back: no link is reported, and every path reads as before. So it is
/// with a symbolic link that could not be made.
pub proof fn lemma_failed_link_is_undone(
    linker: HardLinker,
    kind: LinkKind,
    files: Files,
    original: Seq<u8>,
    duplicate: Seq<u8>,
    backup: Seq<u8>,
)
    requires
        files.contains_key(duplicate),
        !files.contains_key(backup),
    ensures
        ({
            let aside = files_after(
                files,
                LinkPhase::MoveAside(kind),
                original,
                duplicate,
                backup,
                LinkEvent::MovedAside,
            );
            let failed = files_after(
                aside,
                LinkPhase::Link(kind),
                original,
                duplicate,
                backup,
                LinkEvent::Linked(false),
            );
            let restored = files_after(
                failed,
                LinkPhase::Restore,
                original,
                duplicate,
                backup,
                LinkEvent::Restored,
            );
            &&& next_phase(linker, LinkPhase::Link(LinkKind::Hard), LinkEvent::Linked(false))
                == if linker.fallback_to_symbolic {
                LinkPhase::Link(LinkKind::Symbolic)
            } else {
                LinkPhase::Restore
            }
            &&& next_phase(linker, LinkPhase::Link(LinkKind::Symbolic), LinkEvent::Linked(false))
                == LinkPhase::Restore
            &&& next_phase(linker, LinkPhase::Restore, LinkEvent::Restored) == LinkPhase::Finished(
                None,
            )
            &&& aside.contains_key(backup) && aside[backup] == files[duplicate]
            &&& duplicate != backup ==> !aside.contains_key(duplicate)
            &&& failed == aside
            &&& restored == files
        }),
{
    let aside = files_after(
        files,
        LinkPhase::MoveAside(kind),
        original,
        duplicate,
        backup,
        LinkEvent::MovedAside,
    );
    assert(aside.remove(backup).insert(duplicate, aside[backup]) =~= files);
}

/// What is done depends on nothing but whether the user is asked, whether symbolic links are
/// wanted, and what has come so far; whether duplicates are handed on makes no difference.
pub proof fn lemma_handing_on_changes_no_phase(
    a: HardLinker,
    b: HardLinker,
    events: Seq<LinkEvent>,
)
    requires
        a.confirm_actions == b.confirm_actions,
        a.fallback_to_symbolic == b.fallback_to_symbolic,
    ensures
        phase_after(a, events) == phase_after(b, events),
    decreases events.len(),
{
    if events.len() > 0 {
        lemma_handing_on_changes_no_phase(a, b, events.drop_last());
    }
}

/// An event has an effect only where it is waited for; nothing comes after the end.
pub proof fn lemma_events_out_of_place_change_nothing(
    linker: HardLinker,
    phase: LinkPhase,
    event: LinkEvent,
)
    ensures
        !(event is Answered && phase is Ask) && !(event is Inspected && phase is Inspect) && !(
        event is MovedAside && phase is MoveAside) && !(event is Linked && phase is Link) && !(
        event is Restored && phase is Restore) && !(event is Removed && phase is RemoveBackup)
            <==> next_phase(linker, phase, event) == phase,
        phase is Finished ==> next_phase(linker, phase, event) == phase,
{
}

/// Where the user is asked, any answer but `y` ends it.
pub proof fn lemma_any_other_answer_ends_it(linker: HardLinker, answer: char)
    requires
        linker.confirm_actions,
        answer != 'y',
    ensures
        phase_after(linker, seq![]) == LinkPhase::Ask,
        phase_after(linker, seq![LinkEvent::Answered(answer)]) == LinkPhase::Finished(None),
{
    reveal_with_fuel(phase_after, 2);
    assert(seq![LinkEvent::Answered(answer)].drop_last() =~= seq![]);
}

/// The phase and the files after one more event.
proof fn lemma_one_more(
    linker: HardLinker,
    files: Files,
    original: Seq<u8>,
    duplicate: Seq<u8>,
    backup: Seq<u8>,
    events: Seq<LinkEvent>,
    event: LinkEvent,
)
    ensures
        phase_after(linker, events.push(event)) == next_phase(
            linker,
            phase_after(linker, events),
            event,
        ),
        files_after_all(linker, files, original, duplicate, backup, events.push(event))
            == files_after(
            files_after_all(linker, files, original, duplicate, backup, events),
            phase_after(linker, events),
            original,
            duplicate,
            backup,
            event,
        ),
{
    assert(events.push(event).drop_last() =~= events);
}

/// Agreeing leads to the inspection, and does nothing to files.
proof fn lemma_after_consent(
    linker: HardLinker,
    files: Files,
    original: Seq<u8>,
    duplicate: Seq<u8>,
    backup: Seq<u8>,
)
    ensures
        phase_after(linker, consent(linker)) == LinkPhase::Inspect,
        files_after_all(linker, files, original, duplicate, backup, consent(linker)) == files,
{
    if linker.confirm_actions {
        lemma_one_more(
            linker,
            files,
            original,
            duplicate,
            backup,
            seq![],
            LinkEvent::Answered('y'),
        );
        assert(Seq::<LinkEvent>::empty().push(LinkEvent::Answered('y')) =~= consent(linker));
    }
}

/// Where a link is to be made after some events, and every step succeeds, it is made.
proof fn lemma_link_after(
    linker: HardLinker,
    files: Files,
    original: Seq<u8>,
    duplicate: Seq<u8>,
    backup: Seq<u8>,
    events: Seq<LinkEvent>,
    kind: LinkKind,
)
    requires
        phase_after(linker, events) == LinkPhase::MoveAside(kind),
        files_after_all(linker, files, original, duplicate, backup, events) == files,
    ensures
        ({
            let moved = events.push(LinkEvent::MovedAside);
            let linked = moved.push(LinkEvent::Linked(true));
            let removed = linked.push(LinkEvent::Removed);
            &&& phase_after(linker, moved) == LinkPhase::Link(kind)
            &&& phase_after(linker, linked) == LinkPhase::RemoveBackup(kind)
            &&& phase_after(linker, removed) == LinkPhase::Finished(
                Some(
                    match kind {
                        LinkKind::Hard => StatusUpdate::HardLinks(1),
                        LinkKind::Symbolic => StatusUpdate::SymbolicLinks(1),
                    },
                ),
            )
            &&& duplicate != backup && !files.contains_key(backup) && match kind {
                LinkKind::Hard => original != duplicate && original != backup,
                LinkKind::Symbolic => leads_back(files, original, duplicate),
            } ==> files_after_all(linker, files, original, duplicate, backup, removed)
                == files.insert(duplicate, files[original])
        }),
{
    let moved = events.push(LinkEvent::MovedAside);
    let linked = moved.push(LinkEvent::Linked(true));
    lemma_one_more(
        linker,
        files,
        original,
        duplicate,
        backup,
        events,
        LinkEvent::MovedAside,
    );
    lemma_one_more(
        linker,
        files,
        original,
        duplicate,
        backup,
        moved,
        LinkEvent::Linked(true),
    );
    lemma_one_more(linker, files, original, duplicate, backup, linked, LinkEvent::Removed);
    let removed = linked.push(LinkEvent::Removed);
    if duplicate != backup && !files.contains_key(backup) && match kind {
        LinkKind::Hard => original != duplicate && original != backup,
        LinkKind::Symbolic => leads_back(files, original, duplicate),
    } {
        assert(files_after_all(linker, files, original, duplicate, backup, removed)
            =~= files.insert(duplicate, files[original]));
    }
}

} // verus!
