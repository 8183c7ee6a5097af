use covekit::data_transfer::datasets::{
    ids_of, ListValue, PreferencesAdapter, DATASET_FAVORITES, DATASET_RECENT, FAVORITES_KEY,
};
use covekit::data_transfer::import_plan::{ImportOutcome, ImportPlanItem};

fn strings(items: &[&str]) -> ListValue {
    ListValue::Items(items.iter().map(|s| Some(s.to_string())).collect())
}

#[test]
fn ids_of_is_strict_about_structure() {
    assert!(ids_of(&ListValue::Missing, FAVORITES_KEY).unwrap().is_empty());
    assert!(ids_of(&ListValue::Null, FAVORITES_KEY).unwrap().is_empty());
    assert!(ids_of(&strings(&[]), FAVORITES_KEY).unwrap().is_empty());
    assert_eq!(ids_of(&strings(&["ssh", "dns"]), FAVORITES_KEY).unwrap(), vec!["ssh".to_string(), "dns".to_string()]);
    assert!(ids_of(&ListValue::Other, FAVORITES_KEY).unwrap_err().contains("结构不符"));
    let mixed = ListValue::Items(vec![Some("ssh".into()), None]);
    assert!(ids_of(&mixed, FAVORITES_KEY).unwrap_err().contains("非字符串"));
    assert_eq!(ids_of(&mixed, FAVORITES_KEY).unwrap_err(), "偏好 favorites 含非字符串项");
    assert_eq!(ids_of(&ListValue::Other, "recentTools").unwrap_err(), "偏好 recentTools 结构不符（应为字符串数组）");
}

#[test]
fn validate_records_requires_tool_ids() {
    let adapter = PreferencesAdapter;
    assert!(adapter.validate_records(DATASET_FAVORITES, &[Some("ssh".into())]).is_ok());
    assert!(adapter.validate_records(DATASET_FAVORITES, &[Some(" ".into())]).is_err());
    assert!(adapter.validate_records(DATASET_RECENT, &[None]).is_err());
    assert_eq!(
        adapter.validate_records(DATASET_RECENT, &[None]).unwrap_err(),
        "core.recent_tools 记录必须是工具 id（非空字符串）"
    );
}

#[test]
fn unknown_dataset_is_rejected_everywhere() {
    let adapter = PreferencesAdapter;
    assert!(adapter.validate_records("core.theme", &[]).is_err());
    assert!(adapter.enumerate_references("core.theme").is_err());
    assert!(adapter.validate_records(DATASET_FAVORITES, &[]).is_ok());
    assert!(adapter.enumerate_references(DATASET_FAVORITES).unwrap().is_empty());
}

#[test]
fn habits_export_whole_or_by_requested_ids() {
    let adapter = PreferencesAdapter;
    let all = vec!["ssh".to_string(), "dns".to_string()];
    assert_eq!(adapter.export_records(DATASET_FAVORITES, &all, &[]).unwrap(), all);
    assert_eq!(adapter.export_records(DATASET_FAVORITES, &all, &["dns".into()]).unwrap(), vec!["dns".to_string()]);
    assert_eq!(
        adapter.export_records(DATASET_FAVORITES, &all, &["dns".into(), "ftp".into()]).unwrap_err(),
        "core.favorites 不存在记录 ftp（列表可能已过期，请刷新后重试）"
    );
    assert_eq!(adapter.export_records("core.theme", &all, &[]).unwrap_err(), "偏好适配器不支持数据集 core.theme");
}

#[test]
fn habit_datasets_are_described_whole() {
    let adapter = PreferencesAdapter;
    assert_eq!(adapter.owner(), "core");
    let ds = adapter.describe_datasets(4, 2);
    assert_eq!(ds.len(), 2);
    assert_eq!(ds[0].name, DATASET_FAVORITES);
    assert_eq!(ds[0].label, "收藏工具");
    assert_eq!(ds[0].record_count, 4);
    assert!(ds[0].default_selected && ds[0].selectable && ds[0].entries.is_empty());
    assert_eq!(ds[1].name, DATASET_RECENT);
    assert_eq!(ds[1].label, "最近使用");
    assert!(!ds[1].default_selected);
    assert_eq!(adapter.check_readback(DATASET_RECENT, 2, 2), Ok(2));
    assert_eq!(
        adapter.check_readback(DATASET_RECENT, 1, 2).unwrap_err(),
        "core.recent_tools 写入后读回 1 条，预期 2 条"
    );
}

#[test]
fn habit_import_lists_each_tool_or_the_empty_list() {
    let adapter = PreferencesAdapter;
    let records = vec![Some("ssh".to_string()), None, Some("dns".to_string())];
    let lines = adapter.plan_import(DATASET_FAVORITES, &records).unwrap();
    assert_eq!(
        lines,
        vec![
            ImportPlanItem::added(DATASET_FAVORITES, "ssh", "ssh"),
            ImportPlanItem::added(DATASET_FAVORITES, "dns", "dns"),
        ]
    );
    let empty = adapter.plan_import(DATASET_RECENT, &[]).unwrap();
    assert_eq!(empty, vec![ImportPlanItem::excluded(DATASET_RECENT, DATASET_RECENT, "包内这一类是空列表")]);
    assert_eq!(empty[0].outcome, ImportOutcome::Excluded);
    assert_eq!(adapter.plan_import("core.theme", &[]).unwrap_err(), "偏好适配器不支持数据集 core.theme");
}
