use rsdupes::actors::{run_actors, Channel, Options, PlannedActor};
use rsdupes::hard_linker::HardLinker;
use rsdupes::path::FilePath;

fn path(text: &str) -> FilePath {
    FilePath { bytes: text.as_bytes().to_vec() }
}

fn nothing_asked() -> Options {
    Options {
        directory_entry_point: None,
        included_extensions: None,
        excluded_extensions: None,
        excluded_paths: vec![],
        minimum_size: 1,
        hard_link: false,
        confirm_actions: false,
        fallback_to_symbolic: false,
        json_dump: None,
    }
}

fn channels(options: &Options) -> Vec<(Option<Channel>, Option<Channel>)> {
    run_actors(options, 8).iter().map(|t| (t.input, t.output)).collect()
}

#[test]
fn without_an_action_duplicates_go_nowhere() {
    let options = nothing_asked();
    assert_eq!(
        channels(&options),
        vec![
            (None, Some(Channel::Files)),
            (Some(Channel::Files), Some(Channel::DistinctFiles)),
            (Some(Channel::DistinctFiles), Some(Channel::SharedSizes)),
            (Some(Channel::SharedSizes), Some(Channel::PartialHashes)),
            (Some(Channel::PartialHashes), Some(Channel::SharedPartialHashes)),
            (Some(Channel::SharedPartialHashes), Some(Channel::FullHashes)),
            (Some(Channel::FullHashes), Some(Channel::SharedFullHashes)),
            (Some(Channel::SharedFullHashes), Some(Channel::Duplicates)),
            (Some(Channel::Status), None),
        ]
    );
    assert_eq!(
        options.hint().unwrap(),
        "Specify -h or -j to make this program carry out an action. This will just print duplicates"
    );
}

#[test]
fn extensions_are_filtered_where_any_are_given() {
    for included in [true, false] {
        let mut options = nothing_asked();
        if included {
            options.included_extensions = Some(vec!["png".to_string()]);
        } else {
            options.excluded_extensions = Some(vec!["png".to_string()]);
        }
        let tasks = run_actors(&options, 8);
        assert_eq!(tasks.len(), 10);
        assert_eq!(tasks[1].input, Some(Channel::Files));
        assert_eq!(tasks[1].output, Some(Channel::FilteredFiles));
        assert_eq!(tasks[2].input, Some(Channel::FilteredFiles));
        match &tasks[1].actor {
            PlannedActor::Exclusion(filter) => {
                assert_eq!(filter.included_extensions, options.included_extensions);
                assert_eq!(filter.excluded_extensions, options.excluded_extensions);
            }
            _ => panic!("the second actor filters"),
        }
    }
}

#[test]
fn duplicates_are_linked_and_listed_where_that_is_wanted() {
    let mut options = nothing_asked();
    options.json_dump = Some(path("out.json"));
    assert!(options.hint().is_none());
    let listed = channels(&options);
    assert_eq!(listed[8], (Some(Channel::Duplicates), None));
    assert_eq!(listed.len(), 10);
    options.hard_link = true;
    options.confirm_actions = true;
    options.fallback_to_symbolic = true;
    assert!(options.hint().is_none());
    let tasks = run_actors(&options, 8);
    assert_eq!(tasks.len(), 11);
    assert_eq!(tasks[8].input, Some(Channel::Duplicates));
    assert_eq!(tasks[8].output, Some(Channel::ForwardedDuplicates));
    assert_eq!(tasks[9].input, Some(Channel::ForwardedDuplicates));
    match &tasks[8].actor {
        PlannedActor::Link(linker) => assert_eq!(
            *linker,
            HardLinker { confirm_actions: true, forwards: true, fallback_to_symbolic: true }
        ),
        _ => panic!("duplicates are linked first"),
    }
    match &tasks[9].actor {
        PlannedActor::Dump(dumper, output) => {
            assert!(dumper.report().is_empty());
            assert_eq!(*output, path("out.json"));
        }
        _ => panic!("duplicates are listed afterwards"),
    }
    options.json_dump = None;
    assert!(options.hint().is_none());
    let tasks = run_actors(&options, 8);
    assert_eq!(tasks.len(), 10);
    assert_eq!(tasks[8].output, None);
    match &tasks[8].actor {
        PlannedActor::Link(linker) => assert!(!linker.forwards),
        _ => panic!("duplicates are linked"),
    }
}

#[test]
fn the_actors_start_with_what_is_asked_for() {
    let mut options = nothing_asked();
    options.excluded_paths = vec![path("no"), path("nor/this")];
    options.minimum_size = 77;
    let tasks = run_actors(&options, 8);
    match &tasks[0].actor {
        PlannedActor::Recursion(walk) => {
            assert_eq!(walk.queue, vec![path(".")]);
            assert_eq!(walk.excluded_paths, options.excluded_paths);
        }
        _ => panic!("the walk comes first"),
    }
    match &tasks[2].actor {
        PlannedActor::FileSize(filter) => assert_eq!(filter.minimum_size, 77),
        _ => panic!("sizes are third"),
    }
    match &tasks[3].actor {
        PlannedActor::PartialHash(hasher) => {
            assert_eq!(hasher.read_size, 4096);
            assert_eq!(hasher.max_tasks, 8);
        }
        _ => panic!("starts are fourth"),
    }
    match &tasks[5].actor {
        PlannedActor::FullHash(hasher) => assert_eq!(hasher.max_tasks, 8),
        _ => panic!("contents are sixth"),
    }
    let reports: Vec<bool> = tasks.iter().map(|t| t.reports).collect();
    assert_eq!(reports, vec![false, false, false, true, false, true, false, true, false]);
    options.directory_entry_point = Some(vec![path("a"), path("b")]);
    match &run_actors(&options, 8)[0].actor {
        PlannedActor::Recursion(walk) => assert_eq!(walk.queue, vec![path("a"), path("b")]),
        _ => panic!("the walk comes first"),
    }
}

#[test]
fn the_actors_form_a_chain() {
    for linked in [true, false] {
        for listed in [true, false] {
            for filtered in [true, false] {
                let mut options = nothing_asked();
                options.hard_link = linked;
                if listed {
                    options.json_dump = Some(path("out"));
                }
                if filtered {
                    options.included_extensions = Some(vec![]);
                }
                let all = channels(&options);
                for i in 1..all.len() - 1 {
                    assert_eq!(all[i].0, all[i - 1].1);
                }
            }
        }
    }
}
