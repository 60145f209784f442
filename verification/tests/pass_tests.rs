use directory_cleaner::run;
use directory_cleaner::DeleteConfig;
use directory_cleaner::Entry;
use directory_cleaner::RunError;
use directory_cleaner::Timestamp;

fn config_with_cutoff(cutoff: Timestamp) -> DeleteConfig {
    DeleteConfig { dir: String::from("./some_dir"), cutoff_time: cutoff }
}

fn entry(name: &str, created: Option<Timestamp>) -> Entry {
    Entry { name: String::from(name), created }
}

#[test]
fn missing_directory_fails_without_a_plan() {
    let config = config_with_cutoff(Timestamp { secs: 10, nanos: 0 });
    let r = run(config, None);
    assert_eq!(r.err(), Some(RunError::DirectoryNotFound));
}

#[test]
fn empty_directory_stays_empty() {
    let config = config_with_cutoff(Timestamp { secs: 10, nanos: 0 });
    let plan = run(config, Some(Vec::new())).unwrap();
    assert!(plan.to_delete.is_empty());
    assert_eq!(plan.error, None);
}

#[test]
fn two_files_older_than_cutoff_are_both_deleted() {
    // Both created at t0; threshold one second, invocation at t0 plus two:
    // the cutoff is t0 plus one, so both go and the directory ends empty.
    let t0 = Timestamp { secs: 100, nanos: 0 };
    let now = Timestamp { secs: 102, nanos: 0 };
    let config = DeleteConfig::build_at(
        &vec![String::from("prog"), String::from("./some_dir"), String::from("1")],
        now,
    )
    .unwrap();
    assert_eq!(config.cutoff_time, Timestamp { secs: 101, nanos: 0 });
    let listing = vec![entry("file1.txt", Some(t0)), entry("file2.txt", Some(t0))];
    let plan = run(config, Some(listing)).unwrap();
    assert_eq!(plan.to_delete, vec![0, 1]);
    assert_eq!(plan.error, None);
}

#[test]
fn entry_created_at_cutoff_is_kept() {
    let cutoff = Timestamp { secs: 100, nanos: 500 };
    let config = config_with_cutoff(cutoff);
    let listing = vec![entry("same_instant.txt", Some(cutoff))];
    let plan = run(config, Some(listing)).unwrap();
    assert!(plan.to_delete.is_empty());
    assert_eq!(plan.error, None);
}

#[test]
fn one_nanosecond_decides() {
    let cutoff = Timestamp { secs: 100, nanos: 500 };
    let config = config_with_cutoff(cutoff);
    let listing = vec![
        entry("just_older.txt", Some(Timestamp { secs: 100, nanos: 499 })),
        entry("just_newer.txt", Some(Timestamp { secs: 100, nanos: 501 })),
    ];
    let plan = run(config, Some(listing)).unwrap();
    assert_eq!(plan.to_delete, vec![0]);
    assert_eq!(plan.error, None);
}

#[test]
fn seconds_dominate_nanoseconds_in_the_order() {
    let cutoff = Timestamp { secs: 100, nanos: 0 };
    let config = config_with_cutoff(cutoff);
    let listing = vec![
        entry("older_second.txt", Some(Timestamp { secs: 99, nanos: 999_999_999 })),
        entry("newer_second.txt", Some(Timestamp { secs: 100, nanos: 0 })),
    ];
    let plan = run(config, Some(listing)).unwrap();
    assert_eq!(plan.to_delete, vec![0]);
}

#[test]
fn mixed_ages_delete_only_the_old() {
    let cutoff = Timestamp { secs: 100, nanos: 0 };
    let config = config_with_cutoff(cutoff);
    let old = Some(Timestamp { secs: 50, nanos: 0 });
    let new = Some(Timestamp { secs: 150, nanos: 0 });
    let listing = vec![
        entry("keep_a.txt", new),
        entry("drop_b.txt", old),
        entry("keep_c.txt", new),
        entry("drop_d.txt", old),
    ];
    let plan = run(config, Some(listing)).unwrap();
    assert_eq!(plan.to_delete, vec![1, 3]);
    assert_eq!(plan.error, None);
}

#[test]
fn unreadable_metadata_stops_the_pass_after_earlier_deletions() {
    let cutoff = Timestamp { secs: 100, nanos: 0 };
    let config = config_with_cutoff(cutoff);
    let old = Some(Timestamp { secs: 50, nanos: 0 });
    let listing = vec![
        entry("drop_first.txt", old),
        entry("unreadable.txt", None),
        entry("old_but_unexamined.txt", old),
    ];
    let plan = run(config, Some(listing)).unwrap();
    // Fail fast: the deletion before the unreadable entry still happens,
    // the old entry after it is never examined.
    assert_eq!(plan.to_delete, vec![0]);
    assert_eq!(plan.error, Some(RunError::MetadataUnavailable));
}

#[test]
fn unreadable_first_entry_deletes_nothing() {
    let cutoff = Timestamp { secs: 100, nanos: 0 };
    let config = config_with_cutoff(cutoff);
    let listing = vec![entry("unreadable.txt", None), entry("old.txt", Some(Timestamp { secs: 1, nanos: 0 }))];
    let plan = run(config, Some(listing)).unwrap();
    assert!(plan.to_delete.is_empty());
    assert_eq!(plan.error, Some(RunError::MetadataUnavailable));
}

#[test]
fn a_second_pass_deletes_nothing_further() {
    let cutoff = Timestamp { secs: 100, nanos: 0 };
    let old = Some(Timestamp { secs: 50, nanos: 0 });
    let new = Some(Timestamp { secs: 150, nanos: 0 });
    let listing = vec![
        entry("drop_a.txt", old),
        entry("keep_b.txt", new),
        entry("drop_c.txt", old),
        entry("keep_d.txt", new),
    ];
    let first = run(config_with_cutoff(cutoff), Some(listing.clone())).unwrap();
    assert_eq!(first.to_delete, vec![0, 2]);
    // Apply the plan, as the caller would.
    let mut remaining = Vec::new();
    for (i, e) in listing.into_iter().enumerate() {
        if !first.to_delete.contains(&i) {
            remaining.push(e);
        }
    }
    let second = run(config_with_cutoff(cutoff), Some(remaining)).unwrap();
    assert!(second.to_delete.is_empty());
    assert_eq!(second.error, None);
}

#[test]
fn run_error_messages() {
    assert_eq!(RunError::DirectoryNotFound.message(), "the directory does not exist");
    assert_eq!(
        RunError::MetadataUnavailable.message(),
        "could not read the creation time of an entry"
    );
    assert_eq!(RunError::DeletionFailed.message(), "could not delete a file");
}

#[test]
fn is_before_is_strict() {
    let t = Timestamp { secs: 100, nanos: 500 };
    assert!(!t.is_before(&t));
    assert!(Timestamp { secs: 100, nanos: 499 }.is_before(&t));
    assert!(!Timestamp { secs: 100, nanos: 501 }.is_before(&t));
    assert!(Timestamp { secs: 99, nanos: 999_999_999 }.is_before(&t));
}
