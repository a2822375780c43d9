use rsdupes::comparator::DuplicateMessage;
use rsdupes::digest::Digest;
use rsdupes::hard_linker::{question_text, HardLinker, LinkEvent, LinkKind, LinkPhase};
use rsdupes::path::FilePath;
use rsdupes::status::StatusUpdate;
use std::collections::BTreeMap;

fn path(text: &str) -> FilePath {
    FilePath { bytes: text.as_bytes().to_vec() }
}

fn message() -> DuplicateMessage {
    DuplicateMessage {
        file_size: 1,
        hash: Digest { first: 1, second: 2 },
        original: path("dir/a.txt"),
        duplicate: path("dir/b.txt"),
    }
}

fn linker(confirm_actions: bool, forwards: bool, fallback_to_symbolic: bool) -> HardLinker {
    HardLinker { confirm_actions, forwards, fallback_to_symbolic }
}

fn phases(linker: HardLinker, events: &[LinkEvent]) -> Vec<LinkPhase> {
    let (mut job, _) = linker.begin(message());
    let mut all = vec![job.phase];
    for event in events {
        linker.advance(&mut job, *event);
        all.push(job.phase);
    }
    assert_eq!(job.message, message());
    assert_eq!(job.backup, path("dir/b.txt.bak"));
    all
}

const SAME: LinkEvent = LinkEvent::Inspected { original: 4, duplicate: 4 };
const ACROSS: LinkEvent = LinkEvent::Inspected { original: 4, duplicate: 5 };

#[test]
fn a_hard_link_is_made_on_one_device() {
    assert_eq!(
        phases(
            linker(false, false, false),
            &[SAME, LinkEvent::MovedAside, LinkEvent::Linked(true), LinkEvent::Removed]
        ),
        vec![
            LinkPhase::Inspect,
            LinkPhase::MoveAside(LinkKind::Hard),
            LinkPhase::Link(LinkKind::Hard),
            LinkPhase::RemoveBackup(LinkKind::Hard),
            LinkPhase::Finished(Some(StatusUpdate::HardLinks(1))),
        ]
    );
}

#[test]
fn a_symbolic_link_is_made_across_devices_where_that_is_wanted() {
    assert_eq!(
        phases(
            linker(false, false, true),
            &[ACROSS, LinkEvent::MovedAside, LinkEvent::Linked(true), LinkEvent::Removed]
        ),
        vec![
            LinkPhase::Inspect,
            LinkPhase::MoveAside(LinkKind::Symbolic),
            LinkPhase::Link(LinkKind::Symbolic),
            LinkPhase::RemoveBackup(LinkKind::Symbolic),
            LinkPhase::Finished(Some(StatusUpdate::SymbolicLinks(1))),
        ]
    );
    assert_eq!(
        phases(linker(false, false, false), &[ACROSS]),
        vec![LinkPhase::Inspect, LinkPhase::Finished(None)]
    );
    assert_eq!(
        phases(linker(false, false, true), &[SAME]),
        vec![LinkPhase::Inspect, LinkPhase::MoveAside(LinkKind::Hard)]
    );
}

#[test]
fn a_link_that_fails_is_undone() {
    assert_eq!(
        phases(
            linker(false, false, false),
            &[SAME, LinkEvent::MovedAside, LinkEvent::Linked(false), LinkEvent::Restored]
        ),
        vec![
            LinkPhase::Inspect,
            LinkPhase::MoveAside(LinkKind::Hard),
            LinkPhase::Link(LinkKind::Hard),
            LinkPhase::Restore,
            LinkPhase::Finished(None),
        ]
    );
}

#[test]
fn a_symbolic_link_is_tried_where_a_hard_link_fails() {
    assert_eq!(
        phases(
            linker(false, false, true),
            &[
                SAME,
                LinkEvent::MovedAside,
                LinkEvent::Linked(false),
                LinkEvent::Linked(true),
                LinkEvent::Removed,
            ]
        ),
        vec![
            LinkPhase::Inspect,
            LinkPhase::MoveAside(LinkKind::Hard),
            LinkPhase::Link(LinkKind::Hard),
            LinkPhase::Link(LinkKind::Symbolic),
            LinkPhase::RemoveBackup(LinkKind::Symbolic),
            LinkPhase::Finished(Some(StatusUpdate::SymbolicLinks(1))),
        ]
    );
    assert_eq!(
        phases(
            linker(false, false, true),
            &[ACROSS, LinkEvent::MovedAside, LinkEvent::Linked(false), LinkEvent::Restored]
        ),
        vec![
            LinkPhase::Inspect,
            LinkPhase::MoveAside(LinkKind::Symbolic),
            LinkPhase::Link(LinkKind::Symbolic),
            LinkPhase::Restore,
            LinkPhase::Finished(None),
        ]
    );
}

#[test]
fn nothing_is_done_without_consent() {
    for answer in ['n', 'Y', ' ', '\n'] {
        assert_eq!(
            phases(linker(true, false, false), &[LinkEvent::Answered(answer), SAME]),
            vec![LinkPhase::Ask, LinkPhase::Finished(None), LinkPhase::Finished(None)]
        );
    }
    assert_eq!(
        phases(linker(true, false, false), &[LinkEvent::Answered('y')]),
        vec![LinkPhase::Ask, LinkPhase::Inspect]
    );
}

#[test]
fn an_event_that_does_not_belong_changes_nothing() {
    assert_eq!(
        phases(linker(false, false, false), &[LinkEvent::Removed, LinkEvent::Answered('y')]),
        vec![LinkPhase::Inspect, LinkPhase::Inspect, LinkPhase::Inspect]
    );
}

#[test]
fn duplicates_are_handed_on_where_that_is_wanted() {
    assert_eq!(linker(true, true, false).begin(message()).1, Some(message()));
    assert_eq!(linker(true, false, false).begin(message()).1, None);
}

#[test]
fn the_user_is_asked() {
    let linker = linker(true, false, false);
    let (job, _) = linker.begin(message());
    assert_eq!(linker.ask(&job), "Do you want to link dir/b.txt to dir/a.txt?");
    assert_eq!(question_text("x", "y"), "Do you want to link x to y?");
    let odd = DuplicateMessage { duplicate: FilePath { bytes: vec![0xff] }, ..message() };
    let (job, _) = linker.begin(odd);
    assert_eq!(linker.ask(&job), "Do you want to link \u{fffd} to dir/a.txt?");
}

/// Carries a job out on files in memory.
fn carry_out(linker: HardLinker, files: &mut BTreeMap<Vec<u8>, &'static str>, made: bool) {
    let (mut job, _) = linker.begin(message());
    loop {
        let original = job.message.original.bytes.clone();
        let duplicate = job.message.duplicate.bytes.clone();
        let backup = job.backup.bytes.clone();
        let event = match job.phase {
            LinkPhase::Ask => LinkEvent::Answered('y'),
            LinkPhase::Inspect => SAME,
            LinkPhase::MoveAside(_) => {
                let content = files.remove(&duplicate).unwrap();
                files.insert(backup, content);
                LinkEvent::MovedAside
            }
            LinkPhase::Link(_) => {
                if made {
                    let content = files[&original];
                    files.insert(duplicate, content);
                }
                LinkEvent::Linked(made)
            }
            LinkPhase::Restore => {
                let content = files.remove(&backup).unwrap();
                files.insert(duplicate, content);
                LinkEvent::Restored
            }
            LinkPhase::RemoveBackup(_) => {
                files.remove(&backup).unwrap();
                LinkEvent::Removed
            }
            LinkPhase::Finished(_) => break,
        };
        linker.advance(&mut job, event);
    }
}

#[test]
fn linking_loses_nothing() {
    for made in [true, false] {
        let mut files: BTreeMap<Vec<u8>, &'static str> = BTreeMap::new();
        files.insert(b"dir/a.txt".to_vec(), "same");
        files.insert(b"dir/b.txt".to_vec(), "same");
        files.insert(b"dir/c.txt".to_vec(), "other");
        let before = files.clone();
        carry_out(linker(true, false, false), &mut files, made);
        assert_eq!(files, before);
    }
}
