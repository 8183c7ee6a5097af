use covekit::data_transfer::assembly::{carried_block, finish_manifest, plan_export, sorted_edges, ExportStep};
use covekit::data_transfer::json_shape::JsonShape;
use covekit::data_transfer::manifest::{dataset_digest, DatasetBlock, PackageManifest, RecordBody};
use covekit::data_transfer::types::{CatalogEntry, DatasetDescriptor, DependencyEdge, ResolvedSelection, TransportPolicy};

fn entry(dataset: &str, id: &str) -> CatalogEntry {
    CatalogEntry {
        dataset: dataset.into(),
        id: id.into(),
        label: id.into(),
        detail: String::new(),
        dependencies: vec![],
        note: None,
    }
}

fn descriptor(owner: &str, name: &str, policy: TransportPolicy, selectable: bool, entries: Vec<CatalogEntry>) -> DatasetDescriptor {
    DatasetDescriptor {
        name: name.into(),
        label: name.into(),
        owner: owner.into(),
        policy,
        schema_version: 2,
        selectable,
        contains_secret: policy == TransportPolicy::Secret,
        default_selected: false,
        pulls: vec![],
        note: None,
        record_count: entries.len(),
        entries,
    }
}

fn catalog() -> Vec<DatasetDescriptor> {
    vec![
        descriptor("ssh", "ssh.profiles", TransportPolicy::Portable, true, vec![entry("ssh.profiles", "p1"), entry("ssh.profiles", "p2")]),
        descriptor("framework", "vault.credentials", TransportPolicy::Secret, false, vec![entry("vault.credentials", "c1")]),
        descriptor("tools", "tools.paths", TransportPolicy::DeviceLocal, false, vec![]),
        descriptor("notes", "notes.items", TransportPolicy::Portable, true, vec![]),
        descriptor("empty", "empty.items", TransportPolicy::Portable, false, vec![]),
    ]
}

fn resolved(names: &[(&str, &[&str])], include_credentials: bool) -> ResolvedSelection {
    ResolvedSelection {
        datasets: names.iter().map(|(n, ids)| (n.to_string(), ids.iter().map(|i| i.to_string()).collect())).collect(),
        include_credentials,
    }
}

fn owners(list: &[&str]) -> Vec<String> {
    list.iter().map(|o| o.to_string()).collect()
}

fn edge(kind: &str, from: &str, to: &str) -> DependencyEdge {
    DependencyEdge { kind: kind.into(), from_id: from.into(), to_id: to.into() }
}

fn records(n: usize) -> (Vec<u8>, Vec<RecordBody>) {
    let items: Vec<RecordBody> = (0..n).map(|i| RecordBody { bytes: format!("{{\"id\":\"p{i}\"}}").into_bytes(), shape: JsonShape::Object(vec![JsonShape::Scalar]) }).collect();
    let parts: Vec<String> = items.iter().map(|r| String::from_utf8(r.bytes.clone()).unwrap()).collect();
    (format!("[{}]", parts.join(",")).into_bytes(), items)
}

#[test]
fn plan_declares_device_local_and_withheld_credentials() {
    let ds = catalog();
    let sel = resolved(&[("ssh.profiles", &["p1"]), ("tools.paths", &[]), ("vault.credentials", &["c1"])], false);
    let plan = plan_export(&ds, &sel, &owners(&["ssh", "tools", "framework"]));
    assert_eq!(plan.failure, None);
    assert_eq!(
        plan.steps,
        vec![
            ExportStep { descriptor: 0, carry: true },
            ExportStep { descriptor: 2, carry: false },
            ExportStep { descriptor: 1, carry: false },
        ]
    );
    let carried = plan_export(&ds, &resolved(&[("vault.credentials", &["c1"])], true), &owners(&["framework"]));
    assert_eq!(carried.steps, vec![ExportStep { descriptor: 1, carry: true }]);
}

#[test]
fn plan_stops_at_vanished_dataset_or_missing_adapter() {
    let ds = catalog();
    let sel = resolved(&[("ssh.profiles", &["p1"]), ("gone.items", &[]), ("tools.paths", &[])], true);
    let plan = plan_export(&ds, &sel, &owners(&["ssh", "tools"]));
    assert_eq!(plan.steps.len(), 1);
    assert_eq!(plan.failure.as_deref(), Some("数据集 gone.items 在清单装配时消失（目录不一致）"));
    let plan = plan_export(&ds, &resolved(&[("ssh.profiles", &["p1"])], true), &owners(&["tools"]));
    assert!(plan.steps.is_empty());
    assert_eq!(plan.failure.as_deref(), Some("数据集 ssh.profiles 的 owner（ssh）没有登记适配器"));
}

#[test]
fn carried_block_checks_selected_count() {
    let ds = catalog();
    let (serialized, items) = records(1);
    let err = carried_block(&ds[0], 2, serialized, items).unwrap_err();
    assert_eq!(err, "数据集 ssh.profiles 实际导出 1 条，与选择集 2 条不一致（记录可能在选择期间被删除，请刷新后重试）");
    let (serialized, items) = records(2);
    let digest = dataset_digest(&serialized);
    let block = carried_block(&ds[0], 2, serialized, items).unwrap();
    assert_eq!(block.record_count, 2);
    assert_eq!(block.sha256, digest);
    assert_eq!(block.schema_version, 2);
    // A whole dataset without entries brings what it has.
    let (serialized, items) = records(3);
    assert_eq!(carried_block(&ds[3], 0, serialized, items).unwrap().record_count, 3);
}

#[test]
fn edges_come_sorted_without_repeats() {
    let sorted = sorted_edges(vec![
        edge("credential", "p2", "c1"),
        edge("credential", "p1", "c2"),
        edge("credential", "p1", "c1"),
        edge("alias", "z", "a"),
        edge("credential", "p1", "c1"),
    ]);
    assert_eq!(
        sorted,
        vec![edge("alias", "z", "a"), edge("credential", "p1", "c1"), edge("credential", "p1", "c2"), edge("credential", "p2", "c1")]
    );
    assert!(sorted_edges(vec![]).is_empty());
}

#[test]
fn finished_manifest_lists_exclusions_and_sorted_edges() {
    let ds = catalog();
    let sel = resolved(&[("ssh.profiles", &["p1", "p2"])], true);
    let (serialized, items) = records(2);
    let block = carried_block(&ds[0], 2, serialized, items).unwrap();
    let skeleton = PackageManifest::new("default", "默认空间", "0.1.0", "linux");
    let id = skeleton.package_id.clone();
    let manifest = finish_manifest(
        skeleton,
        vec![block],
        vec![edge("credential", "p2", "c1"), edge("credential", "p1", "c1"), edge("credential", "p2", "c1")],
        &ds,
        &sel,
    )
    .unwrap();
    assert_eq!(manifest.package_id, id);
    assert_eq!(manifest.datasets.len(), 1);
    // vault.credentials has entries, notes.items is selectable; tools.paths and empty.items offer nothing.
    assert_eq!(manifest.excluded, vec!["vault.credentials".to_string(), "notes.items".to_string()]);
    assert_eq!(manifest.dependencies, vec![edge("credential", "p1", "c1"), edge("credential", "p2", "c1")]);
}

#[test]
fn finished_manifest_without_blocks_is_refused() {
    let ds = catalog();
    let skeleton = PackageManifest::new("default", "默认空间", "0.1.0", "linux");
    let err = finish_manifest(skeleton, Vec::<DatasetBlock>::new(), vec![], &ds, &resolved(&[], true)).unwrap_err();
    assert_eq!(err, "数据包清单没有任何数据集");
}
