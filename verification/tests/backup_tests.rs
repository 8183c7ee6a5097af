use covekit::data_transfer::backup::{
    backup_summaries, backups_dir, newest_first, prune_victims, restore_check, SnapshotManifest, KEEP_BACKUPS,
};

fn snap(dir: &str, space: &str, at: &str) -> (String, SnapshotManifest) {
    (
        dir.to_string(),
        SnapshotManifest { space_id: space.into(), created_at: at.into(), files: vec!["data/ssh.db".into()] },
    )
}

fn found() -> Vec<(String, SnapshotManifest)> {
    vec![
        snap("import-20250101-aaaa", "s1", "2025-01-01T00:00:00Z"),
        snap("import-20250103-bbbb", "s2", "2025-01-03T00:00:00Z"),
        snap("import-20250102-cccc", "s1", "2025-01-02T00:00:00Z"),
        snap("import-20250103-aaaa", "s1", "2025-01-03T00:00:00Z"),
        snap("import-20241231-dddd", "s1", "2024-12-31T00:00:00Z"),
    ]
}

#[test]
fn snapshots_list_newest_first() {
    let sorted = newest_first(&found());
    let dirs: Vec<&str> = sorted.iter().map(|s| s.0.as_str()).collect();
    assert_eq!(
        dirs,
        vec![
            "import-20250103-bbbb",
            "import-20250103-aaaa",
            "import-20250102-cccc",
            "import-20250101-aaaa",
            "import-20241231-dddd",
        ]
    );
    assert_eq!(sorted[0].1.files, vec!["data/ssh.db".to_string()]);
}

#[test]
fn prune_keeps_the_newest_three() {
    let sorted = newest_first(&found());
    assert_eq!(KEEP_BACKUPS, 3);
    assert_eq!(prune_victims(&sorted), vec!["import-20250101-aaaa".to_string(), "import-20241231-dddd".to_string()]);
    let three: Vec<(String, SnapshotManifest)> = found().into_iter().take(3).collect();
    assert!(prune_victims(&three).is_empty());
}

#[test]
fn listing_shows_only_the_current_space() {
    let sorted = newest_first(&found());
    let list = backup_summaries(&sorted, "s2");
    assert_eq!(list.len(), 1);
    assert_eq!(list[0].dir, "import-20250103-bbbb");
    assert_eq!(list[0].space_id, "s2");
    assert_eq!(list[0].created_at, "2025-01-03T00:00:00Z");
    assert_eq!(backup_summaries(&sorted, "s1").len(), 4);
}

#[test]
fn restore_requests_are_checked() {
    let sorted = newest_first(&found());
    assert_eq!(restore_check("", &sorted, "s1").unwrap_err(), "快照目录名非法");
    assert_eq!(restore_check("../x", &sorted, "s1").unwrap_err(), "快照目录名非法");
    assert_eq!(restore_check("a\\b", &sorted, "s1").unwrap_err(), "快照目录名非法");
    assert_eq!(restore_check("import-19990101-zzzz", &sorted, "s1").unwrap_err(), "快照不存在（可能已被清理）");
    assert_eq!(
        restore_check("import-20250103-bbbb", &sorted, "s1").unwrap_err(),
        "该快照属于别的空间，拒绝还原到当前空间"
    );
    assert_eq!(restore_check("import-20250102-cccc", &sorted, "s1"), Ok(2));
}

#[test]
fn backups_live_under_the_device_root() {
    assert_eq!(backups_dir("/data/covekit"), "/data/covekit/backups");
}
