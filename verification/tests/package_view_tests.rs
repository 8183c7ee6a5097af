use covekit::data_transfer::manifest::{CarriedRecords, DatasetBlock, PackageManifest};
use covekit::data_transfer::package_view::{
    dataset_counts, default_import_selection, export_report, export_target, inspect_target, package_summary,
};
use covekit::data_transfer::types::{DatasetDescriptor, ImportSelection, TransportPolicy};

fn block(name: &str, policy: TransportPolicy, schema_version: u32, count: usize, carried: bool) -> DatasetBlock {
    DatasetBlock {
        name: name.into(),
        schema_version,
        policy,
        record_count: count,
        sha256: String::new(),
        records: if carried { Some(CarriedRecords::Array { serialized: b"[]".to_vec(), items: vec![] }) } else { None },
    }
}

fn known(name: &str, label: &str, schema_version: u32) -> DatasetDescriptor {
    DatasetDescriptor {
        name: name.into(),
        label: label.into(),
        owner: "test".into(),
        policy: TransportPolicy::Portable,
        schema_version,
        selectable: true,
        contains_secret: false,
        default_selected: true,
        pulls: vec![],
        note: None,
        record_count: 0,
        entries: vec![],
    }
}

fn manifest(blocks: Vec<DatasetBlock>) -> PackageManifest {
    let mut m = PackageManifest::new("src-space", "源空间", "0.2.0", "windows");
    m.datasets = blocks;
    m.excluded = vec!["frp.binaries".into()];
    m
}

fn fixture() -> (PackageManifest, Vec<DatasetDescriptor>) {
    let m = manifest(vec![
        block("ssh.profiles", TransportPolicy::Portable, 1, 3, true),
        block("ssh.groups", TransportPolicy::Portable, 3, 1, true),
        block("plugin.unknown", TransportPolicy::Portable, 1, 2, true),
        block("frp.binaries", TransportPolicy::DeviceLocal, 1, 1, false),
    ]);
    let descriptors = vec![
        known("ssh.profiles", "SSH 主机", 2),
        known("ssh.groups", "SSH 分组", 2),
        known("frp.binaries", "FRP 程序", 1),
    ];
    (m, descriptors)
}

#[test]
fn summary_marks_unknown_and_newer_blocks() {
    let (m, descriptors) = fixture();
    let view = package_summary(&m, &descriptors);
    assert_eq!(view.package_id, m.package_id);
    assert_eq!(view.source_space_id, "src-space");
    assert_eq!(view.source_space_name, "源空间");
    assert_eq!(view.app_version, "0.2.0");
    assert_eq!(view.platform, "windows");
    assert_eq!(view.excluded, vec!["frp.binaries".to_string()]);
    assert_eq!(view.datasets.len(), 4);

    let ok = &view.datasets[0];
    assert_eq!(ok.label, "SSH 主机");
    assert!(ok.supported && ok.carried);
    assert_eq!(ok.reason, None);
    assert_eq!(ok.record_count, 3);

    let newer = &view.datasets[1];
    assert!(!newer.supported);
    assert_eq!(newer.schema_version, 3);
    assert_eq!(newer.reason.as_deref(), Some("数据包的版本高于当前应用，需升级后再导入"));

    let unknown = &view.datasets[2];
    assert_eq!(unknown.label, "plugin.unknown");
    assert!(!unknown.supported);
    assert_eq!(unknown.reason.as_deref(), Some("本应用不认识这个类别（可能来自更新的版本）"));

    let local = &view.datasets[3];
    assert!(!local.supported && !local.carried);
    assert_eq!(local.policy, TransportPolicy::DeviceLocal);
    assert_eq!(local.reason.as_deref(), Some("数据包的版本高于当前应用，需升级后再导入"));
}

#[test]
fn default_import_selection_takes_importable_blocks() {
    let (m, descriptors) = fixture();
    let selection = default_import_selection(&m, &descriptors);
    assert_eq!(selection, ImportSelection { datasets: vec!["ssh.profiles".into()] });
    assert!(selection.includes("ssh.profiles"));
    assert!(!selection.includes("ssh.groups"));
}

#[test]
fn counts_are_by_name_and_last_declaration_wins() {
    let m = manifest(vec![
        block("ssh.profiles", TransportPolicy::Portable, 1, 3, true),
        block("core.favorites", TransportPolicy::Portable, 1, 7, true),
        block("ssh.profiles", TransportPolicy::Portable, 1, 5, true),
    ]);
    assert_eq!(
        dataset_counts(&m),
        vec![("core.favorites".to_string(), 7), ("ssh.profiles".to_string(), 5)]
    );
}

#[test]
fn export_report_counts_blocks_and_flags_carried_secrets() {
    let mut m = manifest(vec![
        block("ssh.profiles", TransportPolicy::Portable, 1, 3, true),
        block("vault.credentials", TransportPolicy::Secret, 1, 2, false),
    ]);
    let report = export_report(&m, "/tmp/a.pbdata", 4096);
    assert_eq!(report.path, "/tmp/a.pbdata");
    assert_eq!(report.bytes, 4096);
    assert_eq!(report.package_id, m.package_id);
    assert_eq!(report.source_space_name, "源空间");
    assert_eq!(report.counts, vec![("ssh.profiles".to_string(), 3), ("vault.credentials".to_string(), 2)]);
    assert_eq!(report.excluded, vec!["frp.binaries".to_string()]);
    assert!(!report.secret_included, "只声明的凭证块不算带出秘密");
    m.datasets.push(block("vault.keys", TransportPolicy::Secret, 1, 1, true));
    assert!(export_report(&m, "/tmp/a.pbdata", 1).secret_included);
}

#[test]
fn transfer_paths_are_trimmed_and_required() {
    assert_eq!(export_target("  /tmp/out.pbdata "), Ok("/tmp/out.pbdata".to_string()));
    assert_eq!(export_target("   ").unwrap_err(), "请选择数据包保存位置");
    assert_eq!(inspect_target("").unwrap_err(), "请选择数据包文件");
    assert_eq!(inspect_target(" in.pbdata"), Ok("in.pbdata".to_string()));
}
