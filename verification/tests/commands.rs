use beatcrate::analysis::{analysis_warning, should_warn, AnalysisJob};
use beatcrate::commands::{local_timestamp, LocalInstant};
use beatcrate::commands::{
    append_int, appended_orders, check_config_value, check_crate_status, config_value_valid, err, format_play_date,
    group_by_track, keep_first_notes, next_sort_order, note_update, producer_value, recent_limit, require_path,
    required_text, search_pattern, sequential_orders, sql_placeholders, week_day_offsets, NoteUpdate, TextField,
};
use beatcrate::storage::{data_dir, db_path, is_expected_migration_error, DbHealth};

#[test]
fn config_values_are_validated() {
    assert!(config_value_valid("normalization_enabled", "1"));
    assert!(config_value_valid("timeline_collapsed", "0"));
    assert!(!config_value_valid("todo_collapsed", "true"));
    assert!(config_value_valid("crates_view_mode", "shelved"));
    assert!(!config_value_valid("crates_view_mode", "archived"));
    assert!(config_value_valid("library_mode", "songs"));
    assert!(!config_value_valid("albums_folder", "/x"));
    assert_eq!(check_config_value("library_mode", "crates"), Ok(()));
    assert_eq!(
        check_config_value("library_mode", "grid"),
        Err("invalid config key/value: library_mode=grid".to_string())
    );
    assert_eq!(require_path(""), Err("path is required".to_string()));
    assert_eq!(require_path("/music"), Ok(()));
}

#[test]
fn crate_fields_are_validated() {
    assert_eq!(check_crate_status("released"), Ok(()));
    assert_eq!(
        check_crate_status("done"),
        Err("status must be unreleased, released, or shelved".to_string())
    );
    assert_eq!(producer_value(Some("".to_string())), None);
    assert_eq!(producer_value(Some("Andrew".to_string())), Some("Andrew".to_string()));
    assert_eq!(producer_value(None), None);
}

#[test]
fn user_text_is_trimmed_and_required() {
    assert_eq!(required_text("  lofi \n", TextField::Tag), Ok("lofi".to_string()));
    assert_eq!(required_text("   ", TextField::Tag), Err("tag is required".to_string()));
    assert_eq!(required_text("", TextField::Note), Err("note is required".to_string()));
    assert_eq!(required_text("\t", TextField::Todo), Err("text required".to_string()));
}

#[test]
fn appended_items_go_after_the_last() {
    assert_eq!(next_sort_order(None), 0);
    assert_eq!(next_sort_order(Some(4)), 5);
    assert_eq!(next_sort_order(Some(-1)), 0);
    let orders = appended_orders(4, &vec![10, 11]);
    assert_eq!((orders[0].id, orders[0].sort_order), (10, 5));
    assert_eq!((orders[1].id, orders[1].sort_order), (11, 6));
    let seq = sequential_orders(&vec![7, 3, 9]);
    assert_eq!(seq.iter().map(|o| (o.id, o.sort_order)).collect::<Vec<_>>(), vec![(7, 0), (3, 1), (9, 2)]);
}

#[test]
fn note_edits() {
    assert!(matches!(note_update(Some("x".to_string()), Some(true)), Ok(NoteUpdate::Completed(true))));
    match note_update(Some("  new text ".to_string()), None) {
        Ok(NoteUpdate::Text(t)) => assert_eq!(t, "new text"),
        _ => panic!("text edit expected"),
    }
    assert!(matches!(note_update(None, None), Err(m) if m == "note is required"));
}

#[test]
fn recent_favorites_limit() {
    assert_eq!(recent_limit(None), 3);
    assert_eq!(recent_limit(Some(0)), 1);
    assert_eq!(recent_limit(Some(50)), 20);
    assert_eq!(recent_limit(Some(7)), 7);
}

#[test]
fn search_helpers() {
    assert_eq!(search_pattern("  kick "), Some("%kick%".to_string()));
    assert_eq!(search_pattern("   "), None);
    let keys = vec![
        (1, "a".to_string()),
        (2, "a".to_string()),
        (1, "a".to_string()),
        (1, "b".to_string()),
    ];
    assert_eq!(keep_first_notes(&keys), vec![true, true, false, true]);
    assert_eq!(sql_placeholders(0), "");
    assert_eq!(sql_placeholders(1), "?");
    assert_eq!(sql_placeholders(3), "?,?,?");
}

#[test]
fn rows_are_grouped_by_track() {
    let groups = group_by_track(&vec![5, 6, 5], &vec![6, 5, 7, 5]);
    assert_eq!(groups, vec![vec![1, 3], vec![0], vec![]]);
}

#[test]
fn dates_and_numbers_as_text() {
    assert_eq!(format_play_date(0, 5, 2024), "Jan 5, 2024");
    assert_eq!(format_play_date(11, 31, 1999), "Dec 31, 1999");
    let mut s = String::from("n=");
    append_int(&mut s, -42);
    assert_eq!(s, "n=-42");
    let mut s = String::new();
    append_int(&mut s, i64::MIN);
    assert_eq!(s, i64::MIN.to_string());
    // Sunday: Monday is six days back; Wednesday: two days back.
    assert_eq!(week_day_offsets(0), (-6, 0, -13, -7));
    assert_eq!(week_day_offsets(3), (-2, 4, -9, -3));
    assert_eq!(week_day_offsets(1), (0, 6, -7, -1));
}

#[test]
fn errors_as_text() {
    assert_eq!(err("boom"), "boom");
    assert_eq!(err(42), "42");
}

#[test]
fn analysis_job_counts() {
    let idle = AnalysisJob::start(0);
    assert!(!idle.running && idle.done);
    let mut job = AnalysisJob::start(3);
    assert!(job.running && !job.done && job.total == 3);
    job.record(true);
    job.record(false);
    job.record(true);
    assert_eq!((job.completed, job.failed), (2, 1));
    job.finish();
    assert!(!job.running && job.done);
}

#[test]
fn analysis_warns_when_many_fail() {
    assert!(!should_warn(2, 4));
    assert!(should_warn(3, 12));
    assert!(!should_warn(3, 13));
    assert!(!should_warn(3, 0));
    assert_eq!(analysis_warning(1, 100), None);
    assert_eq!(
        analysis_warning(3, 10),
        Some(
            "Loudness analysis finished, but 3 of 10 beats couldn't be analyzed — some files may be missing or unreadable."
                .to_string()
        )
    );
}

#[test]
fn database_location_and_health() {
    assert_eq!(data_dir(Some("/tmp/bc"), "/home/u"), "/tmp/bc");
    assert_eq!(data_dir(Some(""), "/home/u"), "/home/u/Library/Application Support/BeatCrate");
    assert_eq!(data_dir(None, "/home/u/"), "/home/u/Library/Application Support/BeatCrate");
    assert_eq!(db_path("/data"), "/data/beatcrate.db");
    let h = DbHealth::new("/data", 2, 30);
    assert_eq!((h.db_path.as_str(), h.crates, h.tracks), ("/data/beatcrate.db", 2, 30));
    assert!(is_expected_migration_error("duplicate column name: notes"));
    assert!(is_expected_migration_error("table crates already exists"));
    assert!(!is_expected_migration_error("disk I/O error"));
}

#[test]
fn local_times_resolve_across_clock_changes() {
    assert_eq!(local_timestamp(LocalInstant::Single(100), 0), 100);
    assert_eq!(local_timestamp(LocalInstant::Ambiguous(100, 3700), 0), 100);
    assert_eq!(local_timestamp(LocalInstant::Missing, 55), 55);
}
