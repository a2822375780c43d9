use rsdupes::status::{
    count_text, AfterBatch, AfterRound, StatusData, StatusDisplay, StatusLabels, StatusUpdate,
};

#[test]
fn counts_are_added_up() {
    let mut data = StatusData::default();
    data.merge_status(StatusUpdate::PartialHash(3));
    data.merge_status(StatusUpdate::FullHash(1));
    data.merge_status(StatusUpdate::Duplicates(2));
    data.merge_status(StatusUpdate::HardLinks(4));
    data.merge_status(StatusUpdate::SymbolicLinks(5));
    data.merge_status(StatusUpdate::PartialHash(4));
    assert_eq!(
        data,
        StatusData {
            partial_hashes: 7,
            full_hashes: 1,
            duplicates: 2,
            hardlinks: 4,
            symbolic_links: 5,
        }
    );
    assert!(data.fits(&StatusUpdate::FullHash(usize::MAX - 1)));
    assert!(!data.fits(&StatusUpdate::FullHash(usize::MAX)));
}

#[test]
fn batches_are_taken_until_enough() {
    let mut display = StatusDisplay::new();
    display.begin_round();
    let batch = vec![StatusUpdate::PartialHash(2); 100];
    for _ in 0..10 {
        assert_eq!(display.take_batch(&batch), AfterBatch::TakeMore);
    }
    assert_eq!(display.take_batch(&vec![StatusUpdate::Duplicates(1)]), AfterBatch::Pause);
    assert_eq!(display.status.partial_hashes, 2000);
    assert_eq!(display.status.duplicates, 1);
    display.begin_round();
    assert_eq!(display.take_batch(&batch), AfterBatch::TakeMore);
    assert_eq!(display.take_batch(&vec![]), AfterBatch::Finish);
    assert_eq!(display.status.partial_hashes, 2200);
}

#[test]
fn counts_are_shown_on_a_terminal_alone() {
    let display = StatusDisplay::new();
    assert_eq!(display.end_round(true, false, false), AfterRound::Show);
    assert_eq!(display.end_round(true, false, true), AfterRound::Finish);
    for closed in [true, false] {
        assert_eq!(display.end_round(true, true, closed), AfterRound::LookAgain);
        assert_eq!(display.end_round(false, false, closed), AfterRound::LookAgain);
        assert_eq!(display.end_round(false, true, closed), AfterRound::LookAgain);
    }
    // Where it looks again and no report can come any more, it finds an empty batch.
    let mut display = display;
    assert_eq!(display.take_batch(&vec![]), AfterBatch::Finish);
}

#[test]
fn the_counts_stand_in_three_lines() {
    let mut display = StatusDisplay::new();
    display.take_batch(&vec![
        StatusUpdate::PartialHash(12),
        StatusUpdate::FullHash(34),
        StatusUpdate::Duplicates(56),
        StatusUpdate::HardLinks(78),
        StatusUpdate::SymbolicLinks(1234567890),
    ]);
    let labels = StatusLabels {
        partial_hashes: "P".to_string(),
        full_hashes: "F".to_string(),
        duplicates: "D".to_string(),
        hardlinks: "H".to_string(),
        symbolic_links: "S".to_string(),
    };
    assert_eq!(
        display.lines(&labels),
        vec![
            format!("{}\t{: >9}\t{}\t{}", "P", 12, "F", 34),
            format!("{}\t{: >9}\t{}\t{: >9}", "D", 56, "H", 78),
            format!("{}\t{: >9}", "S", 1234567890),
        ]
    );
    assert_eq!(count_text(42), "       42");
}
