use covekit::data_transfer::export_catalog::{build_catalog, collect_descriptors};
use covekit::data_transfer::types::{CatalogEntry, DatasetDescriptor, DependencyEdge, TransportPolicy};

fn entry(dataset: &str, id: &str, label: &str) -> CatalogEntry {
    CatalogEntry {
        dataset: dataset.into(),
        id: id.into(),
        label: label.into(),
        detail: String::new(),
        dependencies: vec![DependencyEdge { kind: "group".into(), from_id: id.into(), to_id: "g1".into() }],
        note: None,
    }
}

fn descriptor(owner: &str, name: &str, policy: TransportPolicy, selectable: bool, entries: Vec<CatalogEntry>) -> DatasetDescriptor {
    DatasetDescriptor {
        name: name.into(),
        label: format!("{name} label"),
        owner: owner.into(),
        policy,
        schema_version: 1,
        selectable,
        contains_secret: false,
        default_selected: selectable,
        pulls: vec![],
        note: None,
        record_count: entries.len(),
        entries,
    }
}

#[test]
fn descriptors_come_back_in_name_order() {
    let described = vec![
        ("ssh".to_string(), Ok(vec![descriptor("ssh", "ssh.profiles", TransportPolicy::Portable, true, vec![])])),
        ("core".to_string(), Ok(vec![
            descriptor("core", "core.recent", TransportPolicy::History, true, vec![]),
            descriptor("core", "core.favorites", TransportPolicy::Portable, true, vec![]),
        ])),
    ];
    let all = collect_descriptors(described).unwrap();
    let names: Vec<&str> = all.iter().map(|d| d.name.as_str()).collect();
    assert_eq!(names, vec!["core.favorites", "core.recent", "ssh.profiles"]);
}

#[test]
fn foreign_owner_is_refused() {
    let described = vec![("ssh".to_string(), Ok(vec![descriptor("vault", "vault.credentials", TransportPolicy::Secret, false, vec![])]))];
    assert_eq!(
        collect_descriptors(described).unwrap_err(),
        "数据集 vault.credentials 的 owner（vault）与其适配器（ssh）不一致"
    );
}

#[test]
fn name_declared_twice_is_refused() {
    let described = vec![
        ("ssh".to_string(), Ok(vec![descriptor("ssh", "ssh.profiles", TransportPolicy::Portable, true, vec![])])),
        ("ssh".to_string(), Ok(vec![descriptor("ssh", "ssh.profiles", TransportPolicy::Portable, true, vec![])])),
    ];
    assert_eq!(collect_descriptors(described).unwrap_err(), "数据集 ssh.profiles 被多个适配器声明");
}

#[test]
fn record_count_must_match_listed_entries() {
    let mut d = descriptor("ssh", "ssh.profiles", TransportPolicy::Portable, true, vec![entry("ssh.profiles", "p1", "a")]);
    d.record_count = 4;
    let described = vec![("ssh".to_string(), Ok(vec![d]))];
    assert_eq!(
        collect_descriptors(described).unwrap_err(),
        "数据集 ssh.profiles 的 recordCount（4）与条目数（1）不一致"
    );
    // a whole dataset lists no entries and may count anything
    let mut whole = descriptor("core", "core.recent", TransportPolicy::History, true, vec![]);
    whole.record_count = 12;
    assert!(collect_descriptors(vec![("core".to_string(), Ok(vec![whole]))]).is_ok());
}

#[test]
fn adapter_failure_stops_gathering() {
    let described = vec![
        ("ssh".to_string(), Err("数据库打不开".to_string())),
        ("vault".to_string(), Ok(vec![descriptor("ssh", "x.y", TransportPolicy::Portable, true, vec![])])),
    ];
    assert_eq!(collect_descriptors(described).unwrap_err(), "数据库打不开");
}

#[test]
fn catalog_orders_entries_and_warns() {
    let descriptors = vec![
        descriptor("ssh", "ssh.profiles", TransportPolicy::Portable, true, vec![
            entry("ssh.profiles", "p2", "beta"),
            entry("ssh.profiles", "p1", "beta"),
            entry("ssh.profiles", "p3", "alpha"),
        ]),
        descriptor("frp", "frp.binaries", TransportPolicy::DeviceLocal, false, vec![]),
        descriptor("core", "core.groups", TransportPolicy::Portable, false, vec![entry("core.groups", "g1", "zeta")]),
        descriptor("frp", "frp.logs", TransportPolicy::DeviceLocal, false, vec![]),
    ];
    let catalog = build_catalog(&descriptors, "space-1".into(), "工作".into());
    assert_eq!(catalog.source_space_id, "space-1");
    assert_eq!(catalog.source_space_name, "工作");
    let order: Vec<(&str, &str)> = catalog.entries.iter().map(|e| (e.dataset.as_str(), e.id.as_str())).collect();
    assert_eq!(
        order,
        vec![("core.groups", "g1"), ("ssh.profiles", "p3"), ("ssh.profiles", "p1"), ("ssh.profiles", "p2")]
    );
    assert_eq!(catalog.entries[0].dependencies.len(), 1);
    assert_eq!(catalog.datasets.len(), 4);
    assert_eq!(catalog.datasets[1].name, "frp.binaries");
    assert_eq!(catalog.datasets[0].record_count, 3);
    assert_eq!(catalog.defaults.datasets, vec!["ssh.profiles".to_string()]);
    assert!(catalog.defaults.entries.is_empty());
    assert!(catalog.defaults.include_credentials);
    assert_eq!(
        catalog.warnings,
        vec!["以下类别属于本机事实，不随包搬移：frp.binaries label、frp.logs label".to_string()]
    );
}

#[test]
fn empty_catalog_warns_nothing_to_export() {
    let descriptors = vec![descriptor("core", "core.groups", TransportPolicy::Portable, false, vec![])];
    let catalog = build_catalog(&descriptors, "s".into(), "n".into());
    assert_eq!(catalog.warnings, vec!["当前空间没有可勾选的记录，无法导出数据包".to_string()]);
    assert!(catalog.entries.is_empty());
}

#[test]
fn summary_keeps_every_listed_field() {
    let mut d = descriptor("vault", "vault.credentials", TransportPolicy::Secret, false, vec![entry("vault.credentials", "c1", "k")]);
    d.note = Some("随引用它的记录带出".into());
    d.contains_secret = true;
    let s = d.summary();
    assert_eq!(s.name, "vault.credentials");
    assert_eq!(s.label, "vault.credentials label");
    assert_eq!(s.owner, "vault");
    assert_eq!(s.policy, TransportPolicy::Secret);
    assert!(s.contains_secret && !s.selectable && !s.default_selected);
    assert_eq!(s.note.as_deref(), Some("随引用它的记录带出"));
    assert_eq!(s.record_count, 1);
}
