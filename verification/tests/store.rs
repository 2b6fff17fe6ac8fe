use std::path::PathBuf;
use track::error::TrackError;
use track::exporter::{plan_export, ExportKind, ExportPlan, ExportTarget};
use track::matcher::{find_matches, EntryKind, RootWalk, WalkItem};
use track::registry::{AddOutcome, PathStatus};
use track::store::{
    insert_outcome, list_outcome, listing, open_failure, prune_targets, remove_outcome,
    store_location, PathsDB, PruneReport, SqlFailure,
};

fn b(s: &str) -> Vec<u8> {
    s.as_bytes().to_vec()
}

fn in_memory() -> PathsDB {
    PathsDB::open(&PathBuf::from(":memory:")).unwrap()
}

#[test]
fn store_is_next_to_the_configuration() {
    assert_eq!(store_location(Some(b("/home/u/.config"))), Ok(b("/home/u/.config/track.db")));
    assert_eq!(store_location(Some(b("/home/u/.config/"))), Ok(b("/home/u/.config/track.db")));
}

#[test]
fn store_without_a_configuration_directory_is_unavailable() {
    assert_eq!(
        store_location(None),
        Err(TrackError::StorageUnavailable {
            reason: String::from("couldn't get user config dir")
        })
    );
}

#[test]
fn store_that_cannot_be_opened_is_unavailable() {
    let r = PathsDB::open(&PathBuf::from("/no/such/directory/anywhere/track.db"));
    assert!(matches!(r, Err(TrackError::StorageUnavailable { .. })));
}

#[test]
fn fresh_store_lists_nothing() {
    assert_eq!(in_memory().list(), Ok(Vec::new()));
}

#[test]
fn store_tracks_a_path_once() {
    let db = in_memory();
    assert_eq!(db.add(&b("/tmp/proj")), Ok(AddOutcome::Added));
    assert_eq!(db.add(&b("/tmp/proj")), Ok(AddOutcome::AlreadyTracked));
    assert_eq!(db.list(), Ok(vec![b("/tmp/proj")]));
}

#[test]
fn store_lists_in_ascending_order() {
    let db = in_memory();
    for p in ["/c/d", "/a", "/c", "/b", "/a/b"] {
        assert_eq!(db.add(&b(p)), Ok(AddOutcome::Added));
    }
    assert_eq!(db.list(), Ok(vec![b("/a"), b("/a/b"), b("/b"), b("/c"), b("/c/d")]));
}

#[test]
fn store_keeps_bytes_that_are_no_text() {
    let db = in_memory();
    let odd = vec![47u8, 0xff, 0xfe, 0x00, 47, 0x80];
    assert_eq!(db.add(&odd), Ok(AddOutcome::Added));
    assert_eq!(db.add(&b("/a")), Ok(AddOutcome::Added));
    assert_eq!(db.list(), Ok(vec![b("/a"), odd]));
}

#[test]
fn store_refuses_a_relative_path() {
    let db = in_memory();
    assert_eq!(db.add(&b("proj")), Err(TrackError::PathResolution { path: b("proj") }));
    assert_eq!(db.list(), Ok(Vec::new()));
}

#[test]
fn store_removes_a_path() {
    let db = in_memory();
    db.add(&b("/a")).unwrap();
    db.add(&b("/b")).unwrap();
    assert_eq!(db.rm(&b("/a")), Ok(()));
    assert_eq!(db.list(), Ok(vec![b("/b")]));
}

#[test]
fn store_removing_an_absent_path_changes_nothing() {
    let db = in_memory();
    db.add(&b("/a")).unwrap();
    assert_eq!(db.rm(&b("/b")), Ok(()));
    assert_eq!(db.list(), Ok(vec![b("/a")]));
}

#[test]
fn store_prunes_what_is_gone() {
    let db = in_memory();
    for p in ["/a", "/b", "/c"] {
        db.add(&b(p)).unwrap();
    }
    let findings = vec![
        PathStatus { path: b("/a"), exists: false },
        PathStatus { path: b("/b"), exists: true },
        PathStatus { path: b("/c"), exists: false },
    ];
    assert_eq!(
        db.prune(&findings),
        PruneReport { removed: vec![b("/a"), b("/c")], failure: None }
    );
    assert_eq!(db.list(), Ok(vec![b("/b")]));
}

#[test]
fn store_pruned_twice_removes_nothing_more() {
    let db = in_memory();
    for p in ["/a", "/b", "/c"] {
        db.add(&b(p)).unwrap();
    }
    let first = vec![
        PathStatus { path: b("/a"), exists: false },
        PathStatus { path: b("/b"), exists: true },
        PathStatus { path: b("/c"), exists: true },
    ];
    assert_eq!(db.prune(&first), PruneReport { removed: vec![b("/a")], failure: None });
    let after_first = db.list().unwrap();
    let second: Vec<PathStatus> =
        after_first.iter().map(|p| PathStatus { path: p.clone(), exists: true }).collect();
    assert_eq!(db.prune(&second), PruneReport { removed: Vec::new(), failure: None });
    assert_eq!(db.list(), Ok(after_first));
}

#[test]
fn store_prunes_in_ascending_order_whatever_the_findings_order() {
    let db = in_memory();
    for p in ["/a", "/b", "/c"] {
        db.add(&b(p)).unwrap();
    }
    let findings = vec![
        PathStatus { path: b("/c"), exists: false },
        PathStatus { path: b("/a"), exists: false },
        PathStatus { path: b("/c"), exists: false },
    ];
    assert_eq!(
        db.prune(&findings),
        PruneReport { removed: vec![b("/a"), b("/c")], failure: None }
    );
    assert_eq!(db.list(), Ok(vec![b("/b")]));
}

#[test]
fn store_prune_reports_only_what_was_tracked() {
    let db = in_memory();
    db.add(&b("/a")).unwrap();
    let findings = vec![
        PathStatus { path: b("/never/tracked"), exists: false },
        PathStatus { path: b("/a"), exists: true },
    ];
    assert_eq!(db.prune(&findings), PruneReport { removed: Vec::new(), failure: None });
    assert_eq!(db.list(), Ok(vec![b("/a")]));
}

#[test]
fn store_prune_without_findings_does_nothing() {
    let db = in_memory();
    db.add(&b("/a")).unwrap();
    assert_eq!(db.prune(&Vec::new()), PruneReport { removed: Vec::new(), failure: None });
    assert_eq!(db.list(), Ok(vec![b("/a")]));
}

#[test]
fn store_removes_all_in_the_order_given() {
    let db = in_memory();
    for p in ["/a", "/b", "/c"] {
        db.add(&b(p)).unwrap();
    }
    let targets = vec![b("/c"), b("/untracked"), b("/a")];
    assert_eq!(
        db.remove_all(&targets),
        PruneReport { removed: vec![b("/c"), b("/untracked"), b("/a")], failure: None }
    );
    assert_eq!(db.list(), Ok(vec![b("/b")]));
    assert_eq!(db.remove_all(&Vec::new()), PruneReport { removed: Vec::new(), failure: None });
}

#[test]
fn prune_targets_are_the_tracked_that_are_gone() {
    let rows = vec![b("/c"), b("/a"), b("/b")];
    let findings = vec![
        PathStatus { path: b("/c"), exists: false },
        PathStatus { path: b("/x"), exists: false },
        PathStatus { path: b("/b"), exists: true },
        PathStatus { path: b("/a"), exists: false },
    ];
    assert_eq!(prune_targets(&rows, &findings), vec![b("/a"), b("/c")]);
    assert_eq!(prune_targets(&rows, &Vec::new()), Vec::<Vec<u8>>::new());
    assert_eq!(prune_targets(&Vec::new(), &findings), Vec::<Vec<u8>>::new());
}

#[test]
fn insert_outcome_for_each_answer_of_the_database() {
    assert_eq!(insert_outcome(Ok(1)), Ok(AddOutcome::Added));
    assert_eq!(
        insert_outcome(Err(SqlFailure { constraint: true, reason: String::from("UNIQUE") })),
        Ok(AddOutcome::AlreadyTracked)
    );
    assert_eq!(
        insert_outcome(Err(SqlFailure { constraint: false, reason: String::from("disk full") })),
        Err(TrackError::Storage { reason: String::from("disk full") })
    );
}

#[test]
fn open_failure_keeps_the_reason() {
    assert_eq!(
        open_failure(SqlFailure { constraint: false, reason: String::from("unable to open") }),
        TrackError::StorageUnavailable { reason: String::from("unable to open") }
    );
}

#[test]
fn list_outcome_for_each_answer_of_the_database() {
    assert_eq!(list_outcome(Ok(vec![b("/b"), b("/a"), b("/b")])), Ok(vec![b("/a"), b("/b")]));
    assert_eq!(list_outcome(Ok(Vec::new())), Ok(Vec::new()));
    assert_eq!(
        list_outcome(Err(SqlFailure { constraint: false, reason: String::from("no such table") })),
        Err(TrackError::Storage { reason: String::from("no such table") })
    );
}

#[test]
fn remove_outcome_for_each_answer_of_the_database() {
    assert_eq!(remove_outcome(Ok(1)), Ok(()));
    assert_eq!(remove_outcome(Ok(0)), Ok(()));
    assert_eq!(
        remove_outcome(Err(SqlFailure { constraint: false, reason: String::from("locked") })),
        Err(TrackError::Storage { reason: String::from("locked") })
    );
}

#[test]
fn listing_sorts_rows_and_drops_repeats() {
    assert_eq!(listing(&vec![b("/b"), b("/a"), b("/b")]), vec![b("/a"), b("/b")]);
    assert_eq!(listing(&Vec::new()), Vec::<Vec<u8>>::new());
}

#[test]
fn track_match_export_prune() {
    let db = in_memory();
    assert_eq!(db.add(&b("/tmp/proj")), Ok(AddOutcome::Added));
    assert_eq!(db.add(&b("/tmp/proj")), Ok(AddOutcome::AlreadyTracked));
    let roots = db.list().unwrap();
    assert_eq!(roots, vec![b("/tmp/proj")]);

    let walks = vec![RootWalk {
        root: b("/tmp/proj"),
        outcome: Ok(vec![
            WalkItem {
                path: b("/tmp/proj"),
                name: b("proj"),
                depth: 0,
                kind: EntryKind::Directory,
            },
            WalkItem {
                path: b("/tmp/proj/x.txt"),
                name: b("x.txt"),
                depth: 1,
                kind: EntryKind::File,
            },
        ]),
    }];
    let matches = find_matches(&walks).unwrap();
    assert_eq!(matches, vec![b("/tmp/proj/x.txt")]);

    let target = ExportTarget { kind: ExportKind::Dir, destination: b("/tmp/out") };
    match plan_export(&target, &matches) {
        Ok(ExportPlan::Directory { steps }) => {
            assert_eq!(steps.len(), 1);
            assert_eq!(steps[0].source, b("/tmp/proj/x.txt"));
            assert_eq!(steps[0].destination, b("/tmp/out/tmp/proj/x.txt"));
        }
        other => panic!("no directory plan: {:?}", other),
    }

    let findings = vec![PathStatus { path: b("/tmp/proj"), exists: false }];
    assert_eq!(
        db.prune(&findings),
        PruneReport { removed: vec![b("/tmp/proj")], failure: None }
    );
    assert_eq!(db.list(), Ok(Vec::new()));
}
