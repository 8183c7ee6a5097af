use covekit::data_transfer::revision::{storage_revision, RevisionInput};
use covekit::data_transfer::views::planned_revision;
use covekit::data_transfer::datasets::ImportMode;
use covekit::data_transfer::import_checks::DuplicateHint;
use covekit::data_transfer::import_plan::{ImportOutcome, ImportPlan, ImportPlanItem};
use covekit::data_transfer::manifest::{DatasetBlock, PackageManifest};
use covekit::data_transfer::types::{DatasetDescriptor, TransportPolicy};
use covekit::data_transfer::views::{
    commit_report, inspect_result, plan_result, spaces_list, switch_result, ImportSource, SpaceRecord,
};

fn plan() -> ImportPlan {
    ImportPlan {
        plan_id: "imp-1".into(),
        space_id: "11111111-1111-4111-8111-111111111111".into(),
        space_name: "导入空间".into(),
        package_id: "pkg".into(),
        source_space_id: "default".into(),
        source_space_name: "默认空间".into(),
        declared_counts: vec![("ssh.profiles".into(), 2), ("vault.credentials".into(), 1)],
        blocks: vec![],
        items: vec![
            ImportPlanItem::added("ssh.profiles", "p1", "主机 A"),
            ImportPlanItem::pending_reference("ssh.profiles", "p2", "主机 B", "主机 B 的凭证未随包带入"),
            ImportPlanItem::pending_reference("ssh.profiles", "p3", "主机 C", "主机 B 的凭证未随包带入"),
            ImportPlanItem::excluded("vault.credentials", "凭证", "包内只声明了 1 条，未携带记录"),
        ],
        excluded: vec!["vault.credentials".into()],
    }
}

#[test]
fn plan_result_carries_the_plan() {
    let p = plan();
    let result = plan_result(&p, ImportMode::NewSpace, None);
    assert_eq!(result.plan_id, "imp-1");
    assert_eq!(result.mode, "newSpace");
    assert_eq!(result.expected_revision, None);
    assert_eq!(result.preview, p.items);
    assert_eq!(result.pending, vec!["主机 B 的凭证未随包带入".to_string()]);
    assert_eq!(result.excluded, vec!["vault.credentials".to_string()]);
    assert_eq!(result.counts, p.declared_counts);
    assert_eq!(plan_result(&p, ImportMode::Merge, Some("rev".into())).mode, "merge");
}

#[test]
fn commit_report_takes_the_plan_and_written_counts() {
    let p = plan();
    let report = commit_report(&p, "2026-09-01T00:00:00Z".into(), vec![("ssh.profiles".into(), 2)]);
    assert_eq!(report.space_name, "导入空间");
    assert_eq!(report.package_id, "pkg");
    assert_eq!(report.counts, vec![("ssh.profiles".to_string(), 2)]);
    assert_eq!(report.declared_counts.len(), 2);
    assert_eq!(report.pending, vec!["主机 B 的凭证未随包带入".to_string()]);
    assert_eq!(report.excluded, vec!["vault.credentials".to_string()]);
}

#[test]
fn inspect_result_shows_summary_defaults_and_preview() {
    let mut manifest = PackageManifest::new("default", "默认空间", "0.1.0", "linux");
    manifest.datasets.push(DatasetBlock {
        name: "vault.credentials".into(),
        schema_version: 1,
        policy: TransportPolicy::Secret,
        record_count: 1,
        sha256: String::new(),
        records: None,
    });
    let descriptors = vec![DatasetDescriptor {
        name: "vault.credentials".into(),
        label: "凭证".into(),
        owner: "framework".into(),
        policy: TransportPolicy::Secret,
        schema_version: 1,
        selectable: false,
        contains_secret: true,
        default_selected: false,
        pulls: vec![],
        note: None,
        record_count: 0,
        entries: vec![],
    }];
    let hint = DuplicateHint { space_id: "s".into(), space_name: "旧".into(), imported_at: "t".into() };
    let result = inspect_result("insp-1".into(), &manifest, &descriptors, plan(), Some(hint));
    assert_eq!(result.inspect_id, "insp-1");
    assert_eq!(result.summary.package_id, manifest.package_id);
    assert_eq!(result.summary.datasets.len(), 1);
    assert_eq!(result.defaults.datasets, vec!["vault.credentials".to_string()]);
    assert_eq!(result.preview.len(), 4);
    assert_eq!(result.preview[3].outcome, ImportOutcome::Excluded);
    assert_eq!(result.pending.len(), 1);
    assert_eq!(result.duplicate.unwrap().space_name, "旧");
}

#[test]
fn space_switch_always_needs_a_restart() {
    let r = switch_result("s1".into(), "工作".into(), 7);
    assert!(r.restart_required);
    assert_eq!(r.revision, 7);
    assert_eq!(r.name, "工作");
}

fn record(id: &str, name: &str, created: &str, from: Option<&str>) -> SpaceRecord {
    SpaceRecord {
        space_id: id.into(),
        name: name.into(),
        created_at: created.into(),
        imported_from: from.map(|source| ImportSource {
            source_space_name: source.into(),
            imported_at: created.into(),
            counts: vec![("ssh.profiles".into(), 3)],
        }),
    }
}

#[test]
fn spaces_list_puts_active_first_then_newest() {
    let index = vec![
        record("a", "默认空间", "2026-01-01", None),
        record("b", "导入 1", "2026-03-01", Some("家里")),
        record("c", "工作", "2026-02-01", None),
        record("d", "同日", "2026-03-01", None),
    ];
    let list = spaces_list(&index, "c");
    let ids: Vec<&str> = list.iter().map(|s| s.space_id.as_str()).collect();
    // Active first; b and d share a creation time and keep index order.
    assert_eq!(ids, vec!["c", "b", "d", "a"]);
    assert!(list[0].active);
    assert!(!list[1].active);
    assert!(list[1].imported);
    assert_eq!(list[1].source_space_name.as_deref(), Some("家里"));
    assert_eq!(list[1].counts, vec![("ssh.profiles".to_string(), 3)]);
    assert!(!list[3].imported);
    assert!(list[3].counts.is_empty());
    assert!(spaces_list(&vec![], "a").is_empty());
}

#[test]
fn merge_plans_record_the_storage_revision() {
    let files = vec![RevisionInput { name: b"data/ssh.db".to_vec(), wal: None, content: Some(b"abc".to_vec()) }];
    assert_eq!(planned_revision(ImportMode::NewSpace, &files), None);
    let rev = planned_revision(ImportMode::Merge, &files).unwrap();
    assert_eq!(rev, storage_revision(&files));
    assert_eq!(rev.len(), 64);
    assert_eq!(planned_revision(ImportMode::Overwrite, &files), Some(rev));
}
