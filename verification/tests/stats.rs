use weave_core::conflict::MergeStats;
use weave_core::stats::{date_of, default_path, iso_time, WeaveLifetimeStats};

#[test]
fn a_time_is_written_in_utc() {
    assert_eq!(iso_time(0), "1970-01-01T00:00:00Z");
    assert_eq!(iso_time(951_868_799), "2000-02-29T23:59:59Z");
    assert_eq!(iso_time(1_700_000_000), "2023-11-14T22:13:20Z");
}

#[test]
fn a_day_has_one_date() {
    assert_eq!(date_of(0), (1970, 0, 0));
    assert_eq!(date_of(58), (1970, 1, 27));
    assert_eq!(date_of(59), (1970, 2, 0));
    assert_eq!(date_of(11_016), (2000, 1, 28));
    assert_eq!(date_of(11_017), (2000, 2, 0));
    assert_eq!(date_of(364), (1970, 11, 30));
    assert_eq!(date_of(365), (1971, 0, 0));
}

#[test]
fn the_counter_lives_below_home() {
    assert_eq!(
        default_path(Some("/home/me")),
        Some("/home/me/.weave/stats.json".to_string())
    );
    assert_eq!(default_path(None), None);
}

#[test]
fn a_merge_is_counted_in_one_bucket() {
    let mut clean = MergeStats::default();
    clean.entities_unchanged = 3;
    clean.entities_ours_only = 2;
    let once = WeaveLifetimeStats::default().record_merge(&clean, "t1");
    assert_eq!(once.first_run, Some("t1".to_string()));
    assert_eq!(once.last_run, Some("t1".to_string()));
    assert_eq!(once.total_merges, 1);
    assert_eq!(once.total_entities_processed, 5);
    assert_eq!(once.conflicts_auto_resolved, 2);
    assert_eq!(once.conflicts_unresolved, 0);
    assert_eq!(once.confidence_very_high, 1);

    let mut torn = MergeStats::default();
    torn.entities_conflicted = 4;
    let twice = once.record_merge(&torn, "t2");
    assert_eq!(twice.first_run, Some("t1".to_string()));
    assert_eq!(twice.last_run, Some("t2".to_string()));
    assert_eq!(twice.total_merges, 2);
    assert_eq!(twice.conflicts_unresolved, 4);
    assert_eq!(twice.confidence_conflict, 1);
    assert_eq!(
        twice.confidence_very_high
            + twice.confidence_high
            + twice.confidence_medium
            + twice.confidence_conflict,
        twice.total_merges
    );
}
