use covekit::data_transfer::import_plan::ImportPlan;
use covekit::data_transfer::manifest::PackageManifest;
use covekit::data_transfer::session::{SessionTable, Sessions, TransferControl, SESSION_TTL};

fn plan(id: &str) -> ImportPlan {
    ImportPlan {
        plan_id: id.to_string(),
        space_id: "11111111-1111-4111-8111-111111111111".into(),
        space_name: "导入空间".into(),
        package_id: "pkg".into(),
        source_space_id: "default".into(),
        source_space_name: "默认空间".into(),
        declared_counts: vec![],
        blocks: vec![],
        items: vec![],
        excluded: vec![],
    }
}

#[test]
fn table_gives_back_what_was_put_while_it_lives() {
    let mut table: SessionTable<u32> = SessionTable::new();
    table.put("a".into(), 1, 1000);
    assert_eq!(table.get("a", 1000), Some(&1));
    assert_eq!(table.get("a", 1000 + SESSION_TTL - 1), Some(&1));
    assert_eq!(table.get("a", 1000 + SESSION_TTL), None);
    assert_eq!(table.get("b", 1000), None);
    // A clock that went back counts as no time passed.
    assert_eq!(table.get("a", 10), Some(&1));
}

#[test]
fn put_replaces_and_prunes_expired_entries() {
    let mut table: SessionTable<&str> = SessionTable::new();
    table.put("a".into(), "first", 0);
    table.put("a".into(), "second", 10);
    assert_eq!(table.get("a", 20), Some(&"second"));
    table.put("b".into(), "other", SESSION_TTL + 10);
    // "a" expired at the time of the later write and was dropped.
    assert_eq!(table.get("a", 10), None);
    assert_eq!(table.get("b", SESSION_TTL + 10), Some(&"other"));
    table.remove("b");
    assert_eq!(table.get("b", SESSION_TTL + 10), None);
}

#[test]
fn prune_keeps_only_live_entries() {
    let mut table: SessionTable<u8> = SessionTable::new();
    table.put("old".into(), 1, 0);
    table.put("new".into(), 2, SESSION_TTL - 1);
    table.prune(SESSION_TTL);
    assert_eq!(table.get("old", 0), None);
    assert_eq!(table.get("new", SESSION_TTL), Some(&2));
}

#[test]
fn inspect_sessions_expire_with_a_message() {
    let mut sessions = Sessions::new();
    let manifest = PackageManifest::new("default", "默认空间", "0.1.0", "linux");
    let package_id = manifest.package_id.clone();
    let id = sessions.put_inspect("/tmp/a.pbdata".into(), "abc".into(), manifest, 5);
    assert!(id.starts_with("insp-"));
    assert_eq!(id.len(), 41);
    let context = sessions.inspect(&id, 6).unwrap();
    assert_eq!(context.file_path, "/tmp/a.pbdata");
    assert_eq!(context.file_digest, "abc");
    assert_eq!(context.manifest.package_id, package_id);
    assert_eq!(sessions.inspect(&id, 5 + SESSION_TTL).unwrap_err(), "预览已过期，请重新选择数据包并输入密码");
    assert_eq!(sessions.inspect("insp-unknown", 6).unwrap_err(), "预览已过期，请重新选择数据包并输入密码");
    let other = sessions.put_inspect("/tmp/b.pbdata".into(), "def".into(), PackageManifest::new("s", "n", "v", "p"), 6);
    assert_ne!(other, id);
}

#[test]
fn plan_sessions_are_dropped_after_commit() {
    let mut sessions = Sessions::new();
    let id = sessions.put_plan(plan("imp-1"), "/tmp/a.pbdata".into(), "abc".into(), 0);
    assert_eq!(id, "imp-1");
    assert_eq!(sessions.plan("imp-1", 1).unwrap().plan.space_name, "导入空间");
    sessions.drop_plan("imp-1");
    assert_eq!(sessions.plan("imp-1", 1).unwrap_err(), "导入计划已过期，请重新预览后再提交");
    sessions.put_plan(plan("imp-2"), "/tmp/b.pbdata".into(), "def".into(), 0);
    assert_eq!(sessions.plan("imp-2", SESSION_TTL).unwrap_err(), "导入计划已过期，请重新预览后再提交");
}

#[test]
fn cancel_reaches_the_running_transfer_only() {
    let mut control = TransferControl::new();
    assert!(!control.cancel_current());
    let first = control.begin_transfer();
    assert_eq!(control.check(first), Ok(()));
    assert!(control.cancel_current());
    assert!(control.is_cancelled(first));
    assert_eq!(control.check(first), Err("已取消".to_string()));
    control.end_transfer();
    assert!(!control.cancel_current());
    let second = control.begin_transfer();
    assert_eq!(control.check(second), Ok(()));
    assert!(control.is_cancelled(first));
    control.end_transfer();
    assert!(!control.cancel_current());
    assert_eq!(control.check(second), Ok(()));
}
