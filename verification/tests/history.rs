//! Tests of the history and versioning engine, run against the in-memory
//! store and a fixed time source.

use drive_backup::history_service::data_layer::{DataLayer, MemoryDataLayer};
use drive_backup::history_service::{FileHistoryService, FileStatus};
use drive_backup::time_provider::{FixedTimeProvider, TimeProvider};

#[test]
fn fixed_time_provider_hands_out_its_start() {
    let tp = FixedTimeProvider::new(5);
    assert_eq!(tp.naive_utc_start(), 5);
}

#[test]
fn new_file_needs_backup_with_first_id() {
    let dl = MemoryDataLayer::new();
    let mut svc = FileHistoryService::new(dl, FixedTimeProvider::new(100), 2).unwrap();
    let path = vec!["d".to_string(), "a".to_string()];
    match svc.get_file_status(&path, "h1").unwrap() {
        FileStatus::NeedsBackup { sub_dir_id: _, file_id, file_name } => {
            assert_eq!(file_id, 1);
            assert_eq!(file_name, "a");
        }
        FileStatus::DoesNotNeedBackup => panic!("expected NeedsBackup"),
    }
}

#[test]
fn unchanged_content_refreshes_timestamp_without_new_record() {
    // First run at time 100 backs the file up.
    let dl = MemoryDataLayer::new();
    let mut svc = FileHistoryService::new(dl, FixedTimeProvider::new(100), 2).unwrap();
    let path = vec!["d".to_string(), "a".to_string()];
    let dir_id = match svc.get_file_status(&path, "h1").unwrap() {
        FileStatus::NeedsBackup { sub_dir_id, file_id, file_name: _ } => {
            assert_eq!(svc.create_file_entry(sub_dir_id, file_id, "a", "h1").unwrap(), None);
            sub_dir_id
        }
        FileStatus::DoesNotNeedBackup => panic!("expected NeedsBackup"),
    };
    let dl = svc.into_data_layer();

    // Second run at time 200 sees the same content.
    let mut svc = FileHistoryService::new(dl, FixedTimeProvider::new(200), 2).unwrap();
    match svc.get_file_status(&path, "h1").unwrap() {
        FileStatus::DoesNotNeedBackup => {}
        FileStatus::NeedsBackup { .. } => panic!("expected DoesNotNeedBackup"),
    }
    let dl = svc.into_data_layer();

    // The single record remains, moved to the new run's time.
    let records = dl.get_dir_files(dir_id, "a").unwrap();
    assert_eq!(records.len(), 1);
    assert_eq!(records[0].backup_ts, 200);
    assert_eq!(records[0].hsh, Some("h1".to_string()));
}

#[test]
fn changed_content_allocates_strictly_greater_id() {
    let dl = MemoryDataLayer::new();
    let mut svc = FileHistoryService::new(dl, FixedTimeProvider::new(100), 2).unwrap();
    let path = vec!["d".to_string(), "a".to_string()];
    match svc.get_file_status(&path, "h1").unwrap() {
        FileStatus::NeedsBackup { sub_dir_id, file_id, file_name: _ } => {
            assert_eq!(file_id, 1);
            assert_eq!(svc.create_file_entry(sub_dir_id, file_id, "a", "h1").unwrap(), None);
        }
        FileStatus::DoesNotNeedBackup => panic!("expected NeedsBackup"),
    }
    let dl = svc.into_data_layer();

    let mut svc = FileHistoryService::new(dl, FixedTimeProvider::new(200), 2).unwrap();
    match svc.get_file_status(&path, "h2").unwrap() {
        FileStatus::NeedsBackup { sub_dir_id: _, file_id, file_name: _ } => {
            assert_eq!(file_id, 2);
        }
        FileStatus::DoesNotNeedBackup => panic!("expected NeedsBackup"),
    }
}

#[test]
fn retention_evicts_oldest_of_three_copies() {
    // max_copies = 2; file "a" under "d" backed up three times at
    // 100 < 200 < 300 with ids 1, 2, 3; the third call evicts id 1.
    let path = vec!["d".to_string(), "a".to_string()];
    let mut dl = MemoryDataLayer::new();
    let mut dir = 0i64;
    for (ts, hsh, id, evicted) in [
        (100i64, "h1", 1i64, None),
        (200, "h2", 2, None),
        (300, "h3", 3, Some(1i64)),
    ] {
        let mut svc = FileHistoryService::new(dl, FixedTimeProvider::new(ts), 2).unwrap();
        match svc.get_file_status(&path, hsh).unwrap() {
            FileStatus::NeedsBackup { sub_dir_id, file_id, file_name: _ } => {
                assert_eq!(file_id, id);
                dir = sub_dir_id;
                assert_eq!(svc.create_file_entry(sub_dir_id, file_id, "a", hsh).unwrap(), evicted);
            }
            FileStatus::DoesNotNeedBackup => panic!("expected NeedsBackup"),
        }
        dl = svc.into_data_layer();
    }
    // Records for ids 2 and 3 remain.
    let records = dl.get_dir_files(dir, "a").unwrap();
    assert_eq!(records.len(), 2);
    let mut ids: Vec<i64> = records.iter().map(|r| r.id).collect();
    ids.sort();
    assert_eq!(ids, vec![2, 3]);
}

#[test]
fn deletion_sweep_tombstones_untouched_groups() {
    // Run 1 at 100 backs up "a"; run 2 at 200 only sees "b", then sweeps.
    let path_a = vec!["d".to_string(), "a".to_string()];
    let path_b = vec!["d".to_string(), "b".to_string()];
    let dl = MemoryDataLayer::new();
    let mut svc = FileHistoryService::new(dl, FixedTimeProvider::new(100), 2).unwrap();
    let dir = match svc.get_file_status(&path_a, "ha").unwrap() {
        FileStatus::NeedsBackup { sub_dir_id, file_id, file_name: _ } => {
            assert_eq!(svc.create_file_entry(sub_dir_id, file_id, "a", "ha").unwrap(), None);
            sub_dir_id
        }
        FileStatus::DoesNotNeedBackup => panic!("expected NeedsBackup"),
    };
    let dl = svc.into_data_layer();

    let mut svc = FileHistoryService::new(dl, FixedTimeProvider::new(200), 2).unwrap();
    match svc.get_file_status(&path_b, "hb").unwrap() {
        FileStatus::NeedsBackup { sub_dir_id, file_id, file_name: _ } => {
            assert_eq!(svc.create_file_entry(sub_dir_id, file_id, "b", "hb").unwrap(), None);
        }
        FileStatus::DoesNotNeedBackup => panic!("expected NeedsBackup"),
    }
    svc.mark_all_deleted_files().unwrap();
    let dl = svc.into_data_layer();

    // The untouched group "a" got exactly one tombstone at 200.
    let records = dl.get_dir_files(dir, "a").unwrap();
    assert_eq!(records.len(), 2);
    let latest = dl.get_latest_file(dir, "a").unwrap().unwrap();
    assert_eq!(latest.hsh, None);
    assert_eq!(latest.backup_ts, 200);
    // The group seen this run is unaffected.
    let records_b = dl.get_dir_files(dir, "b").unwrap();
    assert_eq!(records_b.len(), 1);
    assert_eq!(records_b[0].hsh, Some("hb".to_string()));
}

#[test]
fn sweep_twice_adds_one_tombstone_only() {
    let path = vec!["d".to_string(), "a".to_string()];
    let dl = MemoryDataLayer::new();
    let mut svc = FileHistoryService::new(dl, FixedTimeProvider::new(100), 2).unwrap();
    let dir = match svc.get_file_status(&path, "ha").unwrap() {
        FileStatus::NeedsBackup { sub_dir_id, file_id, file_name: _ } => {
            assert_eq!(svc.create_file_entry(sub_dir_id, file_id, "a", "ha").unwrap(), None);
            sub_dir_id
        }
        FileStatus::DoesNotNeedBackup => panic!("expected NeedsBackup"),
    };
    let dl = svc.into_data_layer();

    let mut svc = FileHistoryService::new(dl, FixedTimeProvider::new(200), 2).unwrap();
    svc.mark_all_deleted_files().unwrap();
    // A second sweep in the same run finds every group already at 200.
    svc.mark_all_deleted_files().unwrap();
    let dl = svc.into_data_layer();
    assert_eq!(dl.get_dir_files(dir, "a").unwrap().len(), 2);
}

#[test]
fn resolves_same_path_to_same_directory() {
    // "/data/photos/img.jpg" with no existing directories: the walk
    // creates the root, then "data", then "photos", and a second walk
    // finds the same containing directory.
    let path = vec![
        "/".to_string(),
        "data".to_string(),
        "photos".to_string(),
        "img.jpg".to_string(),
    ];
    let dl = MemoryDataLayer::new();
    let mut svc = FileHistoryService::new(dl, FixedTimeProvider::new(100), 2).unwrap();
    let first = match svc.get_file_status(&path, "h1").unwrap() {
        FileStatus::NeedsBackup { sub_dir_id, file_id, file_name } => {
            assert_eq!(file_id, 1);
            assert_eq!(file_name, "img.jpg");
            sub_dir_id
        }
        FileStatus::DoesNotNeedBackup => panic!("expected NeedsBackup"),
    };
    let second = match svc.get_file_status(&path, "h2").unwrap() {
        FileStatus::NeedsBackup { sub_dir_id, file_id, file_name: _ } => {
            assert_eq!(file_id, 2);
            sub_dir_id
        }
        FileStatus::DoesNotNeedBackup => panic!("expected NeedsBackup"),
    };
    assert_eq!(first, second);
    // The three nodes are distinct: root, "data", "photos".
    let dl = svc.into_data_layer();
    let root = dl.get_dir("/").unwrap().unwrap();
    assert_ne!(root.id, first);
    let subs = dl.get_sub_dirs(root.id).unwrap();
    assert_eq!(subs.len(), 1);
    assert_eq!(subs[0].dir_name, "data");
    let subs2 = dl.get_sub_dirs(subs[0].id).unwrap();
    assert_eq!(subs2.len(), 1);
    assert_eq!(subs2[0].dir_name, "photos");
    assert_eq!(subs2[0].id, first);
    // No duplicate node appeared on the second walk.
    assert_eq!(dl.get_sub_dirs(first).unwrap().len(), 0);
}

#[test]
fn refresh_on_empty_group_reports_data_layer_error() {
    let mut dl = MemoryDataLayer::new();
    assert!(dl.update_latest_hsh_ts(1, "missing", 5).is_err());
}
