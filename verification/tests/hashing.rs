use rsdupes::digest::Digest;
use rsdupes::file_discovery_actors::FileSizeMessage;
use rsdupes::full_hash::{CollectFull, FullHashFilter, FullHashMessage, FullHasher};
use rsdupes::partial_hash::{
    Collect, PartialHashFilter, PartialHashMessage, PartialHasher, PartialRead, TaskOutcome,
};
use rsdupes::path::FilePath;
use rsdupes::status::StatusUpdate;

fn path(text: &str) -> FilePath {
    FilePath { bytes: text.as_bytes().to_vec() }
}

fn started(text: &str, file_size: u64, head: &[u8]) -> PartialHashMessage {
    PartialHashMessage { file_size, head: head.to_vec(), path: path(text) }
}

fn hashed(text: &str, file_size: u64, content: &[u8]) -> FullHashMessage {
    FullHashMessage { file_size, hash: Digest::of(content), path: path(text) }
}

fn read(content: &[u8], read_size: usize, block_size: usize, step: usize) -> PartialHashMessage {
    let file = FileSizeMessage { path: path("f"), size: content.len() as u64 };
    let mut reading = PartialRead::start(file, read_size, block_size);
    let mut at = 0;
    while let Some(wanted) = reading.next_request() {
        assert!(wanted <= block_size);
        let given = wanted.min(step).min(content.len() - at);
        reading.absorb(&content[at..at + given]);
        at += given;
    }
    reading.finish()
}

#[test]
fn the_start_of_a_file_is_read() {
    let content: Vec<u8> = (0..200u8).collect();
    for block_size in [1, 7, 64, 1000] {
        for step in [1, 5, 1000] {
            let message = read(&content, 100, block_size, step);
            assert_eq!(message.head, content[..100].to_vec());
            assert_eq!(message.bytes_read(), 100);
            assert!(!message.is_complete());
            let short = read(&content[..40], 100, block_size, step);
            assert_eq!(short.head, content[..40].to_vec());
            assert_eq!(short.file_size, 40);
            assert_eq!(short.path, path("f"));
            assert!(short.is_complete());
        }
    }
}

#[test]
fn nothing_is_asked_for_after_the_end() {
    let file = FileSizeMessage { path: path("f"), size: 9 };
    let mut reading = PartialRead::start(file, 10, 4);
    assert_eq!(reading.next_request(), Some(4));
    reading.absorb(b"abcd");
    assert_eq!(reading.next_request(), Some(4));
    reading.absorb(b"ef");
    assert_eq!(reading.next_request(), Some(4));
    reading.absorb(b"ghi");
    assert_eq!(reading.next_request(), Some(1));
    reading.absorb(b"");
    assert_eq!(reading.next_request(), None);
    assert_eq!(reading.finish(), started("f", 9, b"abcdefghi"));
    let nothing = PartialRead::start(FileSizeMessage { path: path("f"), size: 9 }, 0, 4);
    assert_eq!(nothing.next_request(), None);
}

#[test]
fn tasks_are_collected_as_they_run() {
    let mut hasher = PartialHasher::new(4096, 2);
    assert_eq!(hasher.started(1), Collect::Ready);
    let (sent, again) = hasher.collected(
        Collect::Ready,
        Some(TaskOutcome::Hashed(started("a", 1, b"a"))),
        0,
    );
    assert_eq!(sent, Some(started("a", 1, b"a")));
    assert!(again);
    let (sent, again) = hasher.collected(Collect::Ready, None, 0);
    assert_eq!(sent, None);
    assert!(!again);
    assert_eq!(hasher.report(), StatusUpdate::PartialHash(1));
    assert_eq!(hasher.started(2), Collect::All);
    let (sent, again) = hasher.collected(Collect::All, Some(TaskOutcome::Unreadable), 1);
    assert_eq!(sent, None);
    assert!(again);
    let (sent, again) = hasher.collected(Collect::All, Some(TaskOutcome::Failed), 0);
    assert_eq!(sent, None);
    assert!(!again);
    assert_eq!(hasher.report(), StatusUpdate::PartialHash(2));
    assert_eq!(hasher.counter, 3);
}

#[test]
fn collecting_what_is_ready_stops_at_an_unreadable_file() {
    let mut hasher = PartialHasher::new(4096, 10);
    hasher.started(3);
    let (sent, again) = hasher.collected(Collect::Ready, Some(TaskOutcome::Unreadable), 2);
    assert_eq!(sent, None);
    assert!(!again);
    let (sent, again) = hasher.collected(Collect::Ready, Some(TaskOutcome::Failed), 1);
    assert_eq!(sent, None);
    assert!(!again);
    assert_eq!(hasher.report(), StatusUpdate::PartialHash(0));
}

#[test]
fn files_pass_when_their_start_is_shared() {
    let mut filter = PartialHashFilter::new();
    assert_eq!(filter.receive(started("a", 9, b"xy")), vec![]);
    assert_eq!(filter.receive(started("b", 9, b"xz")), vec![]);
    assert_eq!(filter.receive(started("c", 8, b"xy")), vec![]);
    assert_eq!(
        filter.receive(started("d", 9, b"xy")),
        vec![started("a", 9, b"xy"), started("d", 9, b"xy")]
    );
    assert_eq!(filter.receive(started("e", 9, b"xy")), vec![started("e", 9, b"xy")]);
}

#[test]
fn the_digest_alone_decides_with_the_size() {
    let one = Digest { first: 1, second: 2 };
    let two = Digest { first: 2, second: 1 };
    let mut filter = PartialHashFilter::new();
    assert_eq!(filter.receive_hashed(started("a", 9, b"1"), one), vec![]);
    assert_eq!(filter.receive_hashed(started("b", 9, b"1"), two), vec![]);
    assert_eq!(
        filter.receive_hashed(started("c", 9, b"2"), one),
        vec![started("a", 9, b"1"), started("c", 9, b"2")]
    );
}

#[test]
fn a_whole_file_is_hashed() {
    let content = b"the whole content";
    let full = FullHashMessage::from_partial_hash(started("a", 17, &content[..5]), content);
    assert_eq!(full, hashed("a", 17, content));
    let complete = FullHashMessage::from_partial_hash(started("a", 5, &content[..5]), b"");
    assert_eq!(complete, hashed("a", 5, &content[..5]));
    // A file that has grown since it was first met is hashed with what it has grown by.
    let grown = FullHashMessage::from_partial_hash(started("a", 6, &content[..5]), content);
    assert_eq!(grown.hash, Digest::of(content));
}

#[test]
fn full_hashing_tasks_are_collected() {
    let hasher = FullHasher { max_tasks: 2 };
    assert_eq!(hasher.started(2), (CollectFull::Ready, StatusUpdate::FullHash(1)));
    assert_eq!(hasher.started(3), (CollectFull::One, StatusUpdate::FullHash(1)));
    assert_eq!(
        hasher.collected(CollectFull::One, Some(hashed("a", 1, b"a")), 2),
        (Some(hashed("a", 1, b"a")), false)
    );
    assert_eq!(
        hasher.collected(CollectFull::Ready, Some(hashed("a", 1, b"a")), 0),
        (Some(hashed("a", 1, b"a")), true)
    );
    assert_eq!(hasher.collected(CollectFull::Ready, None, 2), (None, false));
}

#[test]
fn running_tasks_are_waited_for_when_the_input_ends() {
    let mut hasher = PartialHasher::new(4096, 10);
    hasher.started(1);
    assert!(!hasher.collected(Collect::Ready, None, 1).1);
    hasher.started(2);
    assert!(!hasher.collected(Collect::Ready, None, 2).1);
    assert_eq!(hasher.input_ended(2), Some(Collect::All));
    let first = Some(TaskOutcome::Hashed(started("b", 1, b"b")));
    assert_eq!(
        hasher.collected(Collect::All, first, 1),
        (Some(started("b", 1, b"b")), true)
    );
    let second = Some(TaskOutcome::Hashed(started("a", 1, b"a")));
    assert_eq!(
        hasher.collected(Collect::All, second, 0),
        (Some(started("a", 1, b"a")), false)
    );
    assert_eq!(hasher.report(), StatusUpdate::PartialHash(2));
    assert_eq!(hasher.input_ended(0), None);
    let full = FullHasher { max_tasks: 10 };
    assert_eq!(full.input_ended(2), Some(CollectFull::All));
    assert_eq!(full.collected(CollectFull::All, None, 1), (None, true));
    assert_eq!(
        full.collected(CollectFull::All, Some(hashed("a", 1, b"a")), 0),
        (Some(hashed("a", 1, b"a")), false)
    );
    assert_eq!(full.input_ended(0), None);
}

#[test]
fn reports_add_up_to_what_is_handed_on() {
    for max_tasks in [1, 2, 3, 100] {
        let mut hasher = PartialHasher::new(4096, max_tasks);
        let mut running: Vec<PartialHashMessage> = Vec::new();
        let mut handed: Vec<PartialHashMessage> = Vec::new();
        let mut sum = 0;
        for name in ["a", "b", "c", "d", "e", "f", "g", ""] {
            // Every second file is done at once; the last name stands for the end of the input.
            let collect = if name.is_empty() {
                hasher.input_ended(running.len())
            } else {
                running.push(started(name, 1, b"x"));
                Some(hasher.started(running.len()))
            };
            let Some(collect) = collect else {
                continue;
            };
            let mut ready = handed.len() % 2;
            loop {
                let task = if collect == Collect::All || ready > 0 { running.pop() } else { None };
                ready = 0;
                let outcome = task.map(TaskOutcome::Hashed);
                let (message, again) = hasher.collected(collect, outcome, running.len());
                handed.extend(message);
                if !again {
                    break;
                }
            }
            match hasher.report() {
                StatusUpdate::PartialHash(n) => sum += n,
                other => panic!("{:?}", other),
            }
        }
        assert!(running.is_empty());
        assert_eq!(handed.len(), 7);
        assert_eq!(sum, 7);
    }
}

#[test]
fn a_closed_channel_is_read_to_its_end() {
    let mut filter = FullHashFilter::new();
    let mut waiting = vec![hashed("b", 3, b"one"), hashed("a", 3, b"one")];
    let mut passed: Vec<FullHashMessage> = Vec::new();
    while filter.goes_on(true, waiting.len()) {
        let message = waiting.pop().unwrap();
        passed.extend(filter.receive(message));
    }
    assert_eq!(passed, vec![hashed("a", 3, b"one"), hashed("b", 3, b"one")]);
    assert!(filter.goes_on(false, 0));
    assert!(filter.goes_on(false, 1));
}

#[test]
fn files_pass_when_their_digest_is_shared() {
    let mut filter = FullHashFilter::new();
    assert_eq!(filter.receive(hashed("a", 3, b"one")), vec![]);
    assert_eq!(filter.receive(hashed("b", 3, b"two")), vec![]);
    assert_eq!(filter.receive(hashed("c", 4, b"one")), vec![]);
    assert_eq!(
        filter.receive(hashed("d", 3, b"one")),
        vec![hashed("a", 3, b"one"), hashed("d", 3, b"one")]
    );
    assert_eq!(filter.receive(hashed("e", 3, b"one")), vec![hashed("e", 3, b"one")]);
}

#[test]
fn no_twin_is_lost_between_the_filters() {
    let files: [(&str, &[u8]); 6] = [
        ("a", b"12345"),
        ("b", b"12349"),
        ("c", b"1234"),
        ("d", b"12345"),
        ("e", b"92345"),
        ("f", b"12345"),
    ];
    let mut sizes = rsdupes::file_discovery_actors::FileSizeFilter::new(1);
    let mut starts = PartialHashFilter::new();
    let mut hashes = FullHashFilter::new();
    let mut out: Vec<FilePath> = Vec::new();
    let content_of = |p: &FilePath| files.iter().find(|f| path(f.0) == *p).unwrap().1;
    for (name, content) in files {
        for sized in sizes.receive(path(name), content.len() as u64) {
            let head = &content_of(&sized.path)[..3];
            let text = sized.path.to_text();
            for start in starts.receive(started(&text, sized.size, head)) {
                let whole = content_of(&start.path);
                let full = FullHashMessage::from_partial_hash(start, whole);
                for passed in hashes.receive(full) {
                    out.push(passed.path);
                }
            }
        }
    }
    assert_eq!(out, vec![path("a"), path("d"), path("f")]);
}
