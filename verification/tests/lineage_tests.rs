use covekit::data_transfer::lineage::{map_path, ImportMap, MAP_VERSION};

#[test]
fn record_lookup_and_roundtrip() {
    let mut map = ImportMap::default();
    map.record("src-a", "ssh.profiles", "p1", "t1", "pkg-1", "2026-09-16T10:00:00+08:00");
    map.record("src-a", "ssh.profiles", "p1", "t1", "pkg-2", "2026-09-17T10:00:00+08:00");
    map.record("src-a", "ssh.profiles", "p1", "t2", "pkg-3", "2026-09-18T10:00:00+08:00");
    assert_eq!(map.entries.len(), 2);
    let hits = map.lookup("src-a", "ssh.profiles", "p1");
    assert_eq!(hits.len(), 2, "同来源同数据集同来源 id 可对应多个目标");
    assert_eq!(hits[0].package_ids, vec!["pkg-1".to_string(), "pkg-2".to_string()], "同键合并包列表");
    assert_eq!(hits[0].last_seen_at, "2026-09-17T10:00:00+08:00");
    assert_eq!(hits[1].target_id, "t2");
}

#[test]
fn same_package_is_listed_once_and_other_sources_do_not_match() {
    let mut map = ImportMap::default();
    assert_eq!(map.version, MAP_VERSION);
    map.record("src-a", "ssh.profiles", "p1", "t1", "pkg-1", "t0");
    map.record("src-a", "ssh.profiles", "p1", "t1", "pkg-1", "t1");
    assert_eq!(map.entries[0].package_ids, vec!["pkg-1".to_string()]);
    assert_eq!(map.entries[0].last_seen_at, "t1");
    assert!(map.lookup("src-b", "ssh.profiles", "p1").is_empty());
    assert!(map.lookup("src-a", "ssh.groups", "p1").is_empty());
}

#[test]
fn map_lives_under_the_space_root() {
    assert_eq!(map_path("/r", "uid-1"), "/r/spaces/uid-1/import-map.json");
}

#[test]
fn recording_the_same_sighting_again_changes_nothing() {
    let mut once = ImportMap::default();
    once.record("src-a", "ssh.profiles", "p1", "t1", "pkg-1", "t0");
    once.record("src-a", "ssh.profiles", "p2", "t2", "pkg-1", "t0");
    let mut twice = ImportMap::default();
    twice.record("src-a", "ssh.profiles", "p1", "t1", "pkg-1", "t0");
    twice.record("src-a", "ssh.profiles", "p2", "t2", "pkg-1", "t0");
    twice.record("src-a", "ssh.profiles", "p2", "t2", "pkg-1", "t0");
    assert_eq!(twice, once);
}
