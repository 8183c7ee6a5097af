use covekit::data_transfer::datasets::ImportMode;
use covekit::data_transfer::lineage::{ImportMap, LineageEntry, MAP_VERSION};
use covekit::data_transfer::merge::{
    commit_step, owner_groups, CommitAction, CommitEvent, CommitPhase, MergeBlock, OwnerGroup,
    apply_lineage, check_written, expected_count, includes_block, lineage_updates, merge_commit_steps, plan_merge_items,
    map_failure, plan_record, same_apart_from_id_exec, writable, write_failure, ConflictChoice, ConflictDecision, ItemDecision, MergeCore, MergeItem,
    MergePlan,
};
use covekit::data_transfer::records::{Field, Record};

fn record(id: &str, name: &str, port: &str) -> Record {
    Record::Object(vec![
        ("id".to_string(), Field::Text(id.to_string())),
        ("name".to_string(), Field::Text(name.to_string())),
        ("port".to_string(), Field::Other(port.to_string())),
    ])
}

fn row(source_id: &str, target_id: &str) -> LineageEntry {
    LineageEntry {
        source_space_id: "src-space".to_string(),
        dataset: "ssh.profiles".to_string(),
        source_id: source_id.to_string(),
        target_id: target_id.to_string(),
        package_ids: vec!["pkg-1".to_string()],
        last_seen_at: "2024-01-01T00:00:00Z".to_string(),
    }
}

fn merge_core(mode: ImportMode, entries: Vec<LineageEntry>, decisions: Vec<ConflictChoice>) -> MergeCore {
    MergeCore { mode, lineage: ImportMap { version: MAP_VERSION, entries }, decisions }
}

fn choice(source_id: &str, decision: ConflictDecision) -> ConflictChoice {
    ConflictChoice { dataset: "ssh.profiles".to_string(), source_id: source_id.to_string(), decision }
}

fn plan_one(r: &Record, local: &Vec<Record>, merge: Option<&MergeCore>, singleton: bool) -> Result<MergeItem, String> {
    plan_record("ssh.profiles", r, local, "src-space", merge, singleton)
}

fn item(id: &str, decision: ItemDecision, target: Option<&str>) -> MergeItem {
    MergeItem {
        dataset: "ssh.profiles".to_string(),
        id: id.to_string(),
        label: id.to_string(),
        decision,
        conflict: false,
        target_id: target.map(|t| t.to_string()),
        note: None,
    }
}

#[test]
fn without_merge_context_every_record_is_inserted_under_its_own_id() {
    let r = record("a", "alpha", "22");
    let got = plan_one(&r, &vec![record("a", "other", "1")], None, false).unwrap();
    assert_eq!(got.decision, ItemDecision::Insert);
    assert_eq!(got.target_id, Some("a".to_string()));
    assert_eq!(got.label, "alpha");
    assert!(!got.conflict);
}

#[test]
fn overwrite_inserts_without_matching() {
    let c = merge_core(ImportMode::Overwrite, vec![row("a", "x")], vec![]);
    let got = plan_one(&record("a", "alpha", "22"), &vec![record("x", "alpha", "1")], Some(&c), false).unwrap();
    assert_eq!(got.decision, ItemDecision::Insert);
    assert!(!got.conflict);
}

#[test]
fn recorded_row_recognises_an_unchanged_record_as_identical() {
    let c = merge_core(ImportMode::Merge, vec![row("a", "x")], vec![]);
    let local = vec![record("x", "alpha", "22")];
    let got = plan_one(&record("a", "alpha", "22"), &local, Some(&c), false).unwrap();
    assert_eq!(got.decision, ItemDecision::Identical);
    assert_eq!(got.target_id, Some("x".to_string()));
    assert!(!got.conflict);
}

#[test]
fn changed_record_conflicts_and_follows_the_choice() {
    let local = vec![record("x", "alpha", "2222")];
    let imported = record("a", "alpha", "22");
    let keep = merge_core(ImportMode::Merge, vec![row("a", "x")], vec![]);
    let got = plan_one(&imported, &local, Some(&keep), false).unwrap();
    assert_eq!(got.decision, ItemDecision::Skip);
    assert!(got.conflict);
    assert_eq!(got.target_id, Some("x".to_string()));
    let take = merge_core(ImportMode::Merge, vec![row("a", "x")], vec![choice("a", ConflictDecision::UseImported)]);
    let got = plan_one(&imported, &local, Some(&take), false).unwrap();
    assert_eq!(got.decision, ItemDecision::Replace);
    assert_eq!(got.target_id, Some("x".to_string()));
    let both = merge_core(ImportMode::Merge, vec![row("a", "x")], vec![choice("a", ConflictDecision::KeepBoth)]);
    let got = plan_one(&imported, &local, Some(&both), false).unwrap();
    assert_eq!(got.decision, ItemDecision::KeepBoth);
    assert_eq!(got.target_id, None);
}

#[test]
fn later_choice_for_the_same_record_wins() {
    let local = vec![record("x", "alpha", "2222")];
    let c = merge_core(
        ImportMode::Merge,
        vec![row("a", "x")],
        vec![choice("a", ConflictDecision::KeepBoth), choice("a", ConflictDecision::UseImported)],
    );
    let got = plan_one(&record("a", "alpha", "22"), &local, Some(&c), false).unwrap();
    assert_eq!(got.decision, ItemDecision::Replace);
}

#[test]
fn deleted_earlier_import_asks_before_restoring() {
    let c = merge_core(ImportMode::Merge, vec![row("a", "gone")], vec![]);
    let got = plan_one(&record("a", "alpha", "22"), &vec![], Some(&c), false).unwrap();
    assert_eq!(got.decision, ItemDecision::RestorePrompt);
    assert!(got.conflict);
    assert_eq!(got.note, Some("原导入记录已被删除，默认不恢复".to_string()));
    let c = merge_core(ImportMode::Merge, vec![row("a", "gone")], vec![choice("a", ConflictDecision::UseImported)]);
    let got = plan_one(&record("a", "alpha", "22"), &vec![], Some(&c), false).unwrap();
    assert_eq!(got.decision, ItemDecision::Insert);
}

#[test]
fn unmapped_record_matches_by_name_unless_single_slot() {
    let c = merge_core(ImportMode::Merge, vec![], vec![]);
    let local = vec![record("y", "alpha", "22")];
    let got = plan_one(&record("a", "alpha", "22"), &local, Some(&c), false).unwrap();
    assert_eq!(got.target_id, Some("y".to_string()));
    assert_eq!(got.decision, ItemDecision::Skip);
    assert!(got.conflict);
    let got = plan_one(&record("a", "alpha", "22"), &local, Some(&c), true).unwrap();
    assert_eq!(got.decision, ItemDecision::Insert);
    assert!(!got.conflict);
    let same_id = vec![record("a", "alpha", "22")];
    let got = plan_one(&record("a", "alpha", "22"), &same_id, Some(&c), false).unwrap();
    assert_eq!(got.decision, ItemDecision::Identical);
}

#[test]
fn single_slot_refuses_keep_both() {
    let c = merge_core(ImportMode::Merge, vec![], vec![choice("a", ConflictDecision::KeepBoth)]);
    let got = plan_one(&record("a", "alpha", "22"), &vec![], Some(&c), true);
    assert_eq!(got, Err("ssh.profiles 为单槽配置，不能保留两份".to_string()));
}

#[test]
fn record_without_string_id_stops_the_planning() {
    let bad = Record::Object(vec![("id".to_string(), Field::Other("7".to_string()))]);
    let got = plan_merge_items("ssh.profiles", &vec![record("a", "alpha", "1"), bad], &vec![], "src-space", None, false);
    assert_eq!(got, Err("导入记录字段 id 必须为字符串".to_string()));
    let ok = plan_merge_items("ssh.profiles", &vec![record("a", "alpha", "1"), record("b", "beta", "2")], &vec![], "s", None, false)
        .unwrap();
    assert_eq!(ok.len(), 2);
    assert_eq!(ok[1].id, "b");
}

#[test]
fn records_compare_apart_from_their_ids() {
    assert!(same_apart_from_id_exec(&record("a", "alpha", "22"), &record("x", "alpha", "22")));
    assert!(!same_apart_from_id_exec(&record("a", "alpha", "22"), &record("x", "alpha", "23")));
    assert!(!same_apart_from_id_exec(&Record::Other("1".to_string()), &Record::Other("1".to_string())));
}

fn plan(mode: ImportMode, revision: Option<&str>, items: Vec<MergeItem>) -> MergePlan {
    MergePlan {
        mode,
        expected_revision: revision.map(|r| r.to_string()),
        source_space_id: "src-space".to_string(),
        package_id: "pkg-2".to_string(),
        items,
        blocks: vec![],
    }
}

#[test]
fn commit_refuses_new_space_and_stale_plans() {
    let p = plan(ImportMode::NewSpace, Some("r1"), vec![]);
    assert_eq!(
        merge_commit_steps(&p, "r1").err(),
        Some("隔离导入请走暂存物化路径（materialize），不走合并提交".to_string())
    );
    let p = plan(ImportMode::Merge, Some("r1"), vec![]);
    assert_eq!(merge_commit_steps(&p, "r2").err(), Some("预览之后本地数据有变化，请重新预览后再提交".to_string()));
    let p = plan(ImportMode::Merge, None, vec![]);
    assert!(merge_commit_steps(&p, "r1").is_err());
}

#[test]
fn commit_tables_come_from_the_plan_items() {
    let p = plan(
        ImportMode::Merge,
        Some("r1"),
        vec![item("a", ItemDecision::Insert, Some("a")), item("b", ItemDecision::KeepBoth, None), item("c", ItemDecision::Skip, Some("z"))],
    );
    let steps = merge_commit_steps(&p, "r1").unwrap();
    assert_eq!(steps.decisions.len(), 3);
    assert_eq!(steps.decisions[1], ("ssh.profiles".to_string(), "b".to_string(), ItemDecision::KeepBoth));
    assert_eq!(
        steps.id_map,
        vec![
            ("ssh.profiles".to_string(), "a".to_string(), "a".to_string()),
            ("ssh.profiles".to_string(), "c".to_string(), "z".to_string()),
        ]
    );
    assert!(writable(ImportMode::Merge, &steps, "ssh.profiles", "a"));
    assert!(writable(ImportMode::Merge, &steps, "ssh.profiles", "b"));
    assert!(!writable(ImportMode::Merge, &steps, "ssh.profiles", "c"));
    assert!(!writable(ImportMode::Merge, &steps, "ssh.profiles", "d"));
    assert!(writable(ImportMode::Overwrite, &steps, "ssh.profiles", "d"));
    assert_eq!(expected_count(&p, "ssh.profiles", 9), 2);
    assert_eq!(expected_count(&p, "other", 9), 0);
    assert!(includes_block(&p, "ssh.profiles"));
    assert!(!includes_block(&p, "other"));
    let o = plan(ImportMode::Overwrite, Some("r1"), vec![]);
    assert_eq!(expected_count(&o, "other", 9), 9);
    assert!(includes_block(&o, "other"));
}

#[test]
fn written_counts_must_match_the_plan() {
    let expected = vec![("a.x".to_string(), 2usize), ("a.y".to_string(), 0usize)];
    let good = vec![("a.x".to_string(), 2usize), ("a.y".to_string(), 0usize)];
    assert_eq!(check_written(&expected, &good), Ok(()));
    let short = vec![("a.x".to_string(), 1usize), ("a.y".to_string(), 0usize)];
    assert_eq!(check_written(&expected, &short), Err("数据集 a.x 的实际写入条数与计划不一致".to_string()));
    let missing = vec![("a.x".to_string(), 2usize)];
    assert_eq!(check_written(&expected, &missing), Err("数据集 a.y 的实际写入条数与计划不一致".to_string()));
    let extra = vec![("a.x".to_string(), 2usize), ("a.y".to_string(), 0usize), ("a.z".to_string(), 1usize)];
    assert_eq!(check_written(&expected, &extra), Err("适配器返回了计划以外的数据集".to_string()));
}

#[test]
fn reimport_after_commit_lands_on_the_same_target() {
    let p = plan(
        ImportMode::Merge,
        Some("r1"),
        vec![
            item("a", ItemDecision::Insert, Some("a")),
            item("b", ItemDecision::Skip, Some("b")),
            item("c", ItemDecision::Identical, Some("c")),
            item("d", ItemDecision::KeepBoth, None),
        ],
    );
    let rows = lineage_updates(&p);
    assert_eq!(
        rows,
        vec![
            ("ssh.profiles".to_string(), "a".to_string(), "a".to_string()),
            ("ssh.profiles".to_string(), "c".to_string(), "c".to_string()),
        ]
    );
    let mut map = ImportMap { version: MAP_VERSION, entries: vec![] };
    apply_lineage(&mut map, "src-space", &rows, "pkg-2", "2024-02-02T00:00:00Z");
    assert_eq!(map.entries.len(), 2);
    assert_eq!(map.entries[0].target_id, "a");
    assert_eq!(map.entries[0].package_ids, vec!["pkg-2".to_string()]);
    apply_lineage(&mut map, "src-space", &rows, "pkg-2", "2024-03-03T00:00:00Z");
    assert_eq!(map.entries.len(), 2);
    assert_eq!(map.entries[1].last_seen_at, "2024-03-03T00:00:00Z");
    let c = MergeCore { mode: ImportMode::Merge, lineage: map, decisions: vec![] };
    let local = vec![record("a", "alpha", "22")];
    let again = plan_one(&record("a", "alpha", "22"), &local, Some(&c), false).unwrap();
    assert_eq!(again.decision, ItemDecision::Identical);
    assert_eq!(again.target_id, Some("a".to_string()));
}

#[test]
fn failed_commits_say_whether_the_snapshot_came_back() {
    assert_eq!(write_failure("坏了", &Ok(())), "导入失败，已还原导入前数据：坏了");
    assert_eq!(
        write_failure("坏了", &Err("磁盘满".to_string())),
        "导入失败：坏了；自动还原失败：磁盘满。请使用导入前快照恢复"
    );
    assert_eq!(map_failure("e", &Ok(())), "保存导入映射失败，已还原数据：e");
    assert_eq!(map_failure("e", &Err("r".to_string())), "保存导入映射失败：e；还原失败：r，请使用快照恢复");
}

fn group(owner: &str, blocks: &[(&str, usize)]) -> OwnerGroup {
    OwnerGroup { owner: owner.to_string(), blocks: blocks.iter().map(|(d, n)| (d.to_string(), *n)).collect() }
}

fn adapters() -> Vec<String> {
    vec!["a".to_string(), "b".to_string()]
}

#[test]
fn commit_runs_snapshot_owners_then_map() {
    let groups = vec![group("a", &[("a.x", 1)]), group("b", &[("b.y", 2)])];
    let (p, a) = commit_step(CommitPhase::Snapshot, &groups, &adapters(), CommitEvent::Started);
    assert_eq!(a, CommitAction::TakeSnapshot);
    let (p, a) = commit_step(p, &groups, &adapters(), CommitEvent::SnapshotTaken(Ok(())));
    assert_eq!(a, CommitAction::WriteOwner(0));
    let (p, a) = commit_step(p, &groups, &adapters(), CommitEvent::OwnerWritten(Ok(vec![("a.x".to_string(), 1)])));
    assert_eq!(a, CommitAction::WriteOwner(1));
    let (p, a) = commit_step(p, &groups, &adapters(), CommitEvent::OwnerWritten(Ok(vec![("b.y".to_string(), 2)])));
    assert_eq!(a, CommitAction::SaveMap);
    let (p, a) = commit_step(p, &groups, &adapters(), CommitEvent::MapSaved(Ok(())));
    assert_eq!((p, a), (CommitPhase::Done, CommitAction::Finish));
}

#[test]
fn commit_stops_at_an_owner_without_adapter() {
    let groups = vec![group("a", &[("a.x", 1)]), group("zz", &[("zz.y", 1)])];
    let (p, a) = commit_step(CommitPhase::Writing { owner: 0 }, &groups, &adapters(), CommitEvent::OwnerWritten(Ok(vec![("a.x".to_string(), 1)])));
    assert_eq!((p, a), (CommitPhase::Done, CommitAction::Fail("没有 owner 为 zz 的数据适配器".to_string())));
}

#[test]
fn writes_are_grouped_by_owner_in_order() {
    let mut p = plan(
        ImportMode::Merge,
        Some("r1"),
        vec![
            MergeItem { dataset: "ssh.profiles".into(), ..item("a", ItemDecision::Insert, Some("a")) },
            MergeItem { dataset: "ssh.groups".into(), ..item("g", ItemDecision::Replace, Some("g")) },
            MergeItem { dataset: "prefs.items".into(), ..item("p", ItemDecision::Skip, Some("p")) },
        ],
    );
    p.blocks = vec![
        MergeBlock { dataset: "ssh.profiles".into(), owner: "ssh".into(), record_count: 3 },
        MergeBlock { dataset: "prefs.items".into(), owner: "prefs".into(), record_count: 1 },
        MergeBlock { dataset: "ssh.groups".into(), owner: "ssh".into(), record_count: 2 },
    ];
    let groups = owner_groups(&p);
    assert_eq!(groups.len(), 1);
    assert_eq!(groups[0].owner, "ssh");
    assert_eq!(groups[0].blocks, vec![("ssh.profiles".to_string(), 1), ("ssh.groups".to_string(), 1)]);
    p.mode = ImportMode::Overwrite;
    let groups = owner_groups(&p);
    assert_eq!(groups.iter().map(|g| g.owner.clone()).collect::<Vec<_>>(), vec!["prefs".to_string(), "ssh".to_string()]);
    assert_eq!(groups[1].blocks, vec![("ssh.profiles".to_string(), 3), ("ssh.groups".to_string(), 2)]);
}

#[test]
fn failed_commit_steps_restore_the_snapshot() {
    let groups = vec![group("a", &[("a.x", 1)])];
    let ad = adapters();
    let (p, a) = commit_step(CommitPhase::Snapshot, &groups, &ad, CommitEvent::SnapshotTaken(Err("快照失败".to_string())));
    assert_eq!((p, a), (CommitPhase::Done, CommitAction::Fail("快照失败".to_string())));
    let (p, a) = commit_step(CommitPhase::Writing { owner: 0 }, &groups, &ad, CommitEvent::OwnerWritten(Ok(vec![("a.x".to_string(), 3)])));
    assert_eq!(a, CommitAction::Restore);
    let (p, a) = commit_step(p, &groups, &ad, CommitEvent::Restored(Ok(())));
    assert_eq!(p, CommitPhase::Done);
    assert_eq!(a, CommitAction::Fail("导入失败，已还原导入前数据：数据集 a.x 的实际写入条数与计划不一致".to_string()));
    let (p, a) = commit_step(CommitPhase::SavingMap, &groups, &ad, CommitEvent::MapSaved(Err("写盘失败".to_string())));
    assert_eq!(a, CommitAction::Restore);
    let (_, a) = commit_step(p, &groups, &ad, CommitEvent::Restored(Err("还原失败".to_string())));
    assert_eq!(a, CommitAction::Fail("保存导入映射失败：写盘失败；还原失败：还原失败，请使用快照恢复".to_string()));
    let (p, a) = commit_step(CommitPhase::Done, &groups, &ad, CommitEvent::Started);
    assert_eq!((p, a), (CommitPhase::Done, CommitAction::Ignore));
}
