use covekit::data_transfer::import_plan::{
    build_plan, check_written, PlannedBlock, import_context, CarriedBlock, ImportContext, ImportOutcome, ImportPlan, ImportPlanItem,
};
use covekit::data_transfer::json_shape::JsonShape;
use covekit::data_transfer::manifest::{dataset_digest, CarriedRecords, DatasetBlock, PackageManifest, RecordBody};
use covekit::data_transfer::types::{DatasetDescriptor, ImportSelection, TransportPolicy};
use serde_json::Value;

const SPACE: &str = "11111111-1111-4111-8111-111111111111";

fn shape(value: &Value) -> JsonShape {
    match value {
        Value::Array(items) => JsonShape::Array(items.iter().map(shape).collect()),
        Value::Object(map) => JsonShape::Object(map.values().map(shape).collect()),
        _ => JsonShape::Scalar,
    }
}

fn json(text: &str) -> Value {
    serde_json::from_str(text).unwrap()
}

/// A block whose records, count and digest agree.
fn block(name: &str, policy: TransportPolicy, records: Vec<Value>) -> DatasetBlock {
    let serialized = serde_json::to_vec(&Value::Array(records.clone())).unwrap();
    let items: Vec<RecordBody> =
        records.iter().map(|r| RecordBody { bytes: serde_json::to_vec(r).unwrap(), shape: shape(r) }).collect();
    DatasetBlock {
        name: name.to_string(),
        schema_version: 1,
        policy,
        record_count: records.len(),
        sha256: dataset_digest(&serialized),
        records: Some(CarriedRecords::Array { serialized, items }),
    }
}

fn descriptor(name: &str, owner: &str, policy: TransportPolicy) -> DatasetDescriptor {
    DatasetDescriptor {
        name: name.to_string(),
        label: name.to_string(),
        owner: owner.to_string(),
        policy,
        schema_version: 1,
        selectable: true,
        contains_secret: policy == TransportPolicy::Secret,
        default_selected: false,
        pulls: Vec::new(),
        note: None,
        record_count: 0,
        entries: Vec::new(),
    }
}

fn manifest(blocks: Vec<DatasetBlock>) -> PackageManifest {
    let mut manifest = PackageManifest::new("default", "默认空间", "0.1.0", "linux");
    manifest.datasets = blocks;
    manifest
}

/// The test adapter of owner `t`: every record is added under its id.
fn fake_plan(_owner: &str, dataset: &str, records: &[RecordBody], _context: &ImportContext) -> Result<Vec<ImportPlanItem>, String> {
    Ok(records
        .iter()
        .map(|record| {
            let value: Value = serde_json::from_slice(&record.bytes).unwrap();
            let id = value.get("id").and_then(Value::as_str).unwrap_or("?").to_string();
            ImportPlanItem::added(dataset, &id, &id)
        })
        .collect())
}

fn plan(manifest: PackageManifest, descriptors: &Vec<DatasetDescriptor>, selection: &ImportSelection) -> Result<ImportPlan, String> {
    build_plan(manifest, descriptors, selection, &vec!["t".to_string()], SPACE, "导入空间", "imp-test", fake_plan)
}

#[test]
fn build_plan_records_exclusions_explicitly() {
    let manifest = manifest(vec![
        block("t.records", TransportPolicy::Portable, vec![json(r#"{"id": "r1"}"#)]),
        DatasetBlock {
            name: "t.secret".into(),
            schema_version: 1,
            policy: TransportPolicy::Secret,
            record_count: 2,
            sha256: String::new(),
            records: None,
        },
    ]);
    let descriptors = vec![
        descriptor("t.records", "t", TransportPolicy::Portable),
        descriptor("t.secret", "t", TransportPolicy::Secret),
    ];
    let selection = ImportSelection { datasets: vec!["t.records".into(), "t.secret".into()] };
    let plan = plan(manifest, &descriptors, &selection).expect("计划生成成功");

    assert_eq!(plan.blocks.len(), 1);
    assert_eq!(plan.blocks[0].dataset, "t.records");
    assert_eq!(plan.excluded, vec!["t.secret".to_string()]);
    assert_eq!(plan.declared_counts.iter().find(|(name, _)| name == "t.secret").map(|(_, n)| *n), Some(2));
    assert!(plan.items.iter().any(|item| item.outcome == ImportOutcome::Excluded));
    assert!(plan.pending_notes().is_empty());
}

#[test]
fn build_plan_rejects_empty_selection() {
    let manifest = manifest(vec![block("t.records", TransportPolicy::Portable, vec![json(r#"{"id": "r1"}"#)])]);
    let descriptors = vec![descriptor("t.records", "t", TransportPolicy::Portable)];
    let selection = ImportSelection { datasets: Vec::new() };
    let error = plan(manifest, &descriptors, &selection).expect_err("空选择必须报错");
    assert!(error.contains("没有可导入的数据"), "错误文案: {error}");
}

#[test]
fn build_plan_rejects_unknown_or_unsupported_blocks() {
    let selection = ImportSelection { datasets: vec!["t.records".into(), "t.blocked".into()] };
    let descriptors = vec![
        descriptor("t.records", "t", TransportPolicy::Portable),
        descriptor("t.blocked", "t", TransportPolicy::Portable),
    ];

    // Unknown dataset.
    let unknown = manifest(vec![block("t.mystery", TransportPolicy::Portable, vec![json(r#"{"id": "r1"}"#)])]);
    let mut selection_unknown = ImportSelection { datasets: vec!["t.mystery".into()] };
    selection_unknown.datasets.push("t.records".into());
    let mut unknown_manifest = unknown;
    unknown_manifest.datasets[0].name = "t.mystery".into();
    let error = plan(unknown_manifest, &descriptors, &selection_unknown).expect_err("未知数据集必须报错");
    assert!(error.contains("不认识的数据集"), "错误文案: {error}");

    // Newer schema.
    let mut newer = manifest(vec![block("t.records", TransportPolicy::Portable, vec![json(r#"{"id": "r1"}"#)])]);
    newer.datasets[0].schema_version = 9;
    let error = plan(newer, &descriptors, &selection).expect_err("更高 schema 必须报错");
    assert!(error.contains("schema 版本"), "错误文案: {error}");

    // Device-local block.
    let local = manifest(vec![block("t.blocked", TransportPolicy::DeviceLocal, vec![json(r#"{"id": "r1"}"#)])]);
    let mut local_selection = ImportSelection { datasets: vec!["t.blocked".into()] };
    local_selection.datasets.push("t.records".into());
    let error = plan(local, &descriptors, &local_selection).expect_err("device-local 必须报错");
    assert!(error.contains("本机事实"), "错误文案: {error}");
}

#[test]
fn import_refusal_messages_are_exact() {
    let descriptors = vec![descriptor("t.records", "t", TransportPolicy::Portable), descriptor("u.items", "u", TransportPolicy::Portable)];
    let selection = ImportSelection { datasets: vec!["t.records".into(), "u.items".into()] };

    let mut newer = manifest(vec![block("t.records", TransportPolicy::Portable, vec![json(r#"{"id": "r1"}"#)])]);
    newer.datasets[0].schema_version = 9;
    assert_eq!(
        plan(newer, &descriptors, &selection).unwrap_err(),
        "数据集 t.records 的 schema 版本 9 高于当前应用支持的 1（请升级应用后重试）"
    );

    let no_adapter = manifest(vec![block("u.items", TransportPolicy::Portable, vec![json(r#"{"id": "x"}"#)])]);
    assert_eq!(plan(no_adapter, &descriptors, &selection).unwrap_err(), "数据集 u.items 的适配器（u）未登记");

    let mut not_array = manifest(vec![block("t.records", TransportPolicy::Portable, vec![])]);
    not_array.datasets[0].records = Some(CarriedRecords::NotArray);
    assert_eq!(plan(not_array, &descriptors, &selection).unwrap_err(), "数据集 t.records 的记录体不是数组");

    let unknown = manifest(vec![block("v.other", TransportPolicy::Portable, vec![])]);
    assert_eq!(
        plan(unknown, &descriptors, &selection).unwrap_err(),
        "数据包包含本应用不认识的数据集 v.other（请升级应用后重试）"
    );
}

#[test]
fn plan_lists_every_verdict_in_block_order() {
    let descriptors = vec![
        descriptor("t.records", "t", TransportPolicy::Portable),
        descriptor("t.other", "t", TransportPolicy::Portable),
        descriptor("t.secret", "t", TransportPolicy::Secret),
    ];
    let manifest = manifest(vec![
        block("t.other", TransportPolicy::Portable, vec![json(r#"{"id": "o1"}"#)]),
        block("t.records", TransportPolicy::Portable, vec![json(r#"{"id": "r1"}"#), json(r#"{"id": "r2"}"#)]),
        DatasetBlock {
            name: "t.secret".into(),
            schema_version: 1,
            policy: TransportPolicy::Secret,
            record_count: 3,
            sha256: String::new(),
            records: None,
        },
    ]);
    let package_id = manifest.package_id.clone();
    let selection = ImportSelection { datasets: vec!["t.records".into(), "t.secret".into()] };
    let plan = plan(manifest, &descriptors, &selection).unwrap();
    assert_eq!(plan.package_id, package_id);
    assert_eq!(plan.plan_id, "imp-test");
    assert_eq!(plan.space_id, SPACE);
    assert_eq!(plan.space_name, "导入空间");
    assert_eq!(plan.excluded, vec!["t.other".to_string(), "t.secret".to_string()]);
    assert_eq!(
        plan.items,
        vec![
            ImportPlanItem::excluded("t.other", "t.other", "本次未选择导入"),
            ImportPlanItem::added("t.records", "r1", "r1"),
            ImportPlanItem::added("t.records", "r2", "r2"),
            ImportPlanItem::excluded("t.secret", "t.secret", "包内只声明了 3 条，未携带记录"),
        ]
    );
    assert_eq!(plan.blocks.len(), 1);
    assert_eq!(plan.blocks[0].owner, "t");
    assert_eq!(plan.blocks[0].records.len(), 2);
    assert_eq!(
        plan.declared_counts,
        vec![("t.other".to_string(), 1), ("t.records".to_string(), 2), ("t.secret".to_string(), 3)]
    );
}

#[test]
fn adapter_refusal_ends_planning() {
    let descriptors = vec![descriptor("t.records", "t", TransportPolicy::Portable)];
    let manifest = manifest(vec![block("t.records", TransportPolicy::Portable, vec![json(r#"{"id": "r1"}"#)])]);
    let selection = ImportSelection { datasets: vec!["t.records".into()] };
    let refuse = |_: &str, dataset: &str, _: &[RecordBody], _: &ImportContext| -> Result<Vec<ImportPlanItem>, String> {
        Err(format!("{dataset} 记录不完整"))
    };
    let error = build_plan(manifest, &descriptors, &selection, &vec!["t".to_string()], SPACE, "导入空间", "imp-test", refuse)
        .unwrap_err();
    assert_eq!(error, "t.records 记录不完整");
}

#[test]
fn pending_notes_are_sorted_and_unique() {
    let descriptors = vec![descriptor("t.records", "t", TransportPolicy::Portable)];
    let manifest = manifest(vec![block("t.records", TransportPolicy::Portable, vec![json(r#"{"id": "r1"}"#), json(r#"{"id": "r2"}"#)])]);
    let selection = ImportSelection { datasets: vec!["t.records".into()] };
    let pending = |_: &str, dataset: &str, _: &[RecordBody], _: &ImportContext| -> Result<Vec<ImportPlanItem>, String> {
        Ok(vec![
            ImportPlanItem::pending_reference(dataset, "r2", "档案 B", "档案 B 的凭证未随包带入"),
            ImportPlanItem::pending_reference(dataset, "r1", "档案 A", "档案 A 的凭证未随包带入"),
            ImportPlanItem::pending_reference(dataset, "r3", "档案 A", "档案 A 的凭证未随包带入"),
            ImportPlanItem::added(dataset, "r4", "r4"),
        ])
    };
    let plan = build_plan(manifest, &descriptors, &selection, &vec!["t".to_string()], SPACE, "导入空间", "imp-test", pending)
        .unwrap();
    assert_eq!(plan.pending_notes(), vec!["档案 A 的凭证未随包带入".to_string(), "档案 B 的凭证未随包带入".to_string()]);
}

#[test]
fn context_knows_what_came_along() {
    let manifest = manifest(vec![
        block("ssh.profiles", TransportPolicy::Portable, vec![json(r#"{"id": "p1"}"#), json(r#"{"id": "p2"}"#)]),
        block("favorites.items", TransportPolicy::Portable, vec![json(r#""tool-a""#)]),
        block("dup.items", TransportPolicy::Portable, vec![json(r#"{"id": "d"}"#), json(r#"{"id": "d"}"#)]),
        DatasetBlock {
            name: "vault.credentials".into(),
            schema_version: 1,
            policy: TransportPolicy::Secret,
            record_count: 2,
            sha256: String::new(),
            records: None,
        },
    ]);
    let context = import_context(&manifest);
    assert_eq!(context.source_space_id, "default");
    assert_eq!(
        context.carried[0].1,
        CarriedBlock { record_count: 2, ids: Some(vec!["p1".to_string(), "p2".to_string()]) }
    );
    assert_eq!(context.carried[1].1, CarriedBlock { record_count: 1, ids: None });
    assert_eq!(context.carried[2].1, CarriedBlock { record_count: 2, ids: None });
    assert_eq!(context.carried[3].1, CarriedBlock { record_count: 2, ids: None });

    assert!(context.is_carried("ssh.profiles"));
    assert!(context.is_carried("favorites.items"));
    assert!(context.is_carried("vault.credentials"));
    assert!(!context.is_carried("groups.items"));

    assert!(context.carries_id("ssh.profiles", "p1"));
    assert!(!context.carries_id("ssh.profiles", "p3"));
    assert!(!context.carries_id("favorites.items", "tool-a"));

    assert!(context.declared_without_id("ssh.profiles", "p3"));
    assert!(!context.declared_without_id("ssh.profiles", "p2"));
    assert!(context.declared_without_id("groups.items", "g1"));
    assert!(!context.declared_without_id("vault.credentials", "c1"));
}

#[test]
fn staging_write_must_match_the_plan() {
    let block = PlannedBlock {
        dataset: "t.records".into(),
        owner: "t".into(),
        records: vec![RecordBody { bytes: b"{}".to_vec(), shape: JsonShape::Object(vec![]) }],
    };
    assert_eq!(check_written(&block, 1), Ok(1));
    assert_eq!(check_written(&block, 2).unwrap_err(), "数据集 t.records 计划写入 1 条，实际写入 2 条");
}

#[test]
fn rules_refusal_wins_over_adapter_refusal() {
    let descriptors = vec![descriptor("t.records", "t", TransportPolicy::Portable)];
    let manifest = manifest(vec![block("t.unknown", TransportPolicy::Portable, vec![json(r#"{"id": "r1"}"#)])]);
    let selection = ImportSelection { datasets: vec!["t.unknown".into()] };
    let refuse = |_: &str, _: &str, _: &[RecordBody], _: &ImportContext| -> Result<Vec<ImportPlanItem>, String> {
        Err("适配器拒绝".to_string())
    };
    let error = build_plan(manifest, &descriptors, &selection, &vec!["t".to_string()], SPACE, "导入空间", "imp-test", refuse)
        .unwrap_err();
    assert_eq!(error, "数据包包含本应用不认识的数据集 t.unknown（请升级应用后重试）");
}

#[test]
fn adapter_is_asked_with_the_blocks_owner_name_and_records() {
    let descriptors = vec![descriptor("t.records", "t", TransportPolicy::Portable)];
    let manifest = manifest(vec![block(
        "t.records",
        TransportPolicy::Portable,
        vec![json(r#"{"id": "r1"}"#), json(r#"{"id": "r2"}"#)],
    )]);
    let selection = ImportSelection { datasets: vec!["t.records".into()] };
    let check = |owner: &str, dataset: &str, records: &[RecordBody], context: &ImportContext| -> Result<Vec<ImportPlanItem>, String> {
        if owner == "t" && dataset == "t.records" && records.len() == 2 && context.carried.len() == 1 {
            Ok(vec![ImportPlanItem::added(dataset, "ok", "ok")])
        } else {
            Err(format!("意外的参数 {owner} {dataset} {}", records.len()))
        }
    };
    let plan = build_plan(manifest, &descriptors, &selection, &vec!["t".to_string()], SPACE, "导入空间", "imp-test", check)
        .unwrap();
    assert_eq!(plan.items, vec![ImportPlanItem::added("t.records", "ok", "ok")]);
}
