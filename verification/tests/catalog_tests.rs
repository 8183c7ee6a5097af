use covekit::data_transfer::catalog::{default_selection, planned_counts, resolve_selection};
use covekit::data_transfer::types::{
    CatalogEntry, DatasetDescriptor, DatasetPull, DependencyEdge, ExportSelection, SelectionEntry, TransportPolicy,
};

fn entry(dataset: &str, id: &str, deps: Vec<(&str, &str)>) -> CatalogEntry {
    CatalogEntry {
        dataset: dataset.into(),
        id: id.into(),
        label: format!("{dataset}-{id}"),
        detail: String::new(),
        dependencies: deps
            .into_iter()
            .map(|(kind, to)| DependencyEdge { kind: kind.into(), from_id: id.into(), to_id: to.into() })
            .collect(),
        note: None,
    }
}

fn descriptor(
    name: &str,
    policy: TransportPolicy,
    selectable: bool,
    pulls: Vec<(&str, &str)>,
    entries: Vec<CatalogEntry>,
) -> DatasetDescriptor {
    let record_count = entries.len();
    DatasetDescriptor {
        name: name.into(),
        label: name.into(),
        owner: "test".into(),
        policy,
        schema_version: 1,
        selectable,
        contains_secret: policy == TransportPolicy::Secret,
        default_selected: false,
        pulls: pulls.into_iter().map(|(kind, dataset)| DatasetPull { kind: kind.into(), dataset: dataset.into() }).collect(),
        note: None,
        record_count,
        entries,
    }
}

fn catalog_fixture() -> Vec<DatasetDescriptor> {
    vec![
        descriptor(
            "ssh.profiles",
            TransportPolicy::Portable,
            true,
            vec![("credential", "vault.credentials"), ("group", "ssh.groups"), ("tunnel", "ssh.tunnels")],
            vec![
                entry("ssh.profiles", "p1", vec![("credential", "c1"), ("group", "g1")]),
                entry("ssh.profiles", "p2", vec![("credential", "c1"), ("tunnel", "t1")]),
                entry("ssh.profiles", "p3", vec![]),
            ],
        ),
        descriptor("ssh.groups", TransportPolicy::Portable, false, vec![], vec![entry("ssh.groups", "g1", vec![])]),
        descriptor("ssh.tunnels", TransportPolicy::Portable, false, vec![], vec![entry("ssh.tunnels", "t1", vec![])]),
        descriptor(
            "vault.credentials",
            TransportPolicy::Secret,
            false,
            vec![],
            vec![entry("vault.credentials", "c1", vec![]), entry("vault.credentials", "c2", vec![])],
        ),
        descriptor("core.favorites", TransportPolicy::Portable, true, vec![], vec![]),
    ]
}

fn pick(dataset: &str, ids: &[&str]) -> ExportSelection {
    ExportSelection {
        entries: vec![SelectionEntry { dataset: dataset.into(), ids: ids.iter().map(|s| s.to_string()).collect() }],
        datasets: vec![],
        include_credentials: true,
    }
}

#[test]
fn closure_pulls_referenced_only() {
    let descriptors = catalog_fixture();
    let resolved = resolve_selection(&descriptors, &pick("ssh.profiles", &["p1"])).expect("解析成功");
    assert_eq!(resolved.ids_of("ssh.profiles"), ["p1".to_string()]);
    assert_eq!(resolved.ids_of("ssh.groups"), ["g1".to_string()]);
    assert_eq!(resolved.ids_of("vault.credentials"), ["c1".to_string()]);
    assert!(!resolved.includes("ssh.tunnels"), "未引用隧道不进包");
    assert!(!resolved.includes("core.favorites"), "未勾选收藏不进包");
}

#[test]
fn closure_dedups_credentials_and_keeps_unbound_profile() {
    let descriptors = catalog_fixture();
    let resolved = resolve_selection(&descriptors, &pick("ssh.profiles", &["p1", "p2", "p3"])).expect("解析成功");
    assert_eq!(resolved.ids_of("vault.credentials"), ["c1".to_string()]);
    assert_eq!(resolved.ids_of("ssh.profiles").len(), 3, "未绑定凭证的档案仍然进包，只是不引出凭证");
    assert_eq!(resolved.ids_of("ssh.tunnels"), ["t1".to_string()]);
}

#[test]
fn non_selectable_dataset_rejected() {
    let descriptors = catalog_fixture();
    let selection =
        ExportSelection { entries: vec![], datasets: vec!["vault.credentials".into()], include_credentials: true };
    let error = resolve_selection(&descriptors, &selection).unwrap_err();
    assert!(error.contains("不能单独勾选"), "{error}");
}

#[test]
fn stale_id_rejected() {
    let descriptors = catalog_fixture();
    let error = resolve_selection(&descriptors, &pick("ssh.profiles", &["p9"])).unwrap_err();
    assert!(error.contains("不存在记录 p9"), "{error}");
}

#[test]
fn empty_selection_rejected() {
    let descriptors = catalog_fixture();
    let error = resolve_selection(&descriptors, &ExportSelection::empty()).unwrap_err();
    assert!(error.contains("没有选择"), "{error}");
}

#[test]
fn whole_dataset_selection_has_empty_ids() {
    let descriptors = catalog_fixture();
    let selection =
        ExportSelection { entries: vec![], datasets: vec!["core.favorites".into()], include_credentials: true };
    let resolved = resolve_selection(&descriptors, &selection).expect("解析成功");
    assert!(resolved.includes("core.favorites"));
    assert!(resolved.ids_of("core.favorites").is_empty());
    let counts = planned_counts(&resolved);
    assert_eq!(counts.iter().find(|(name, _)| name == "core.favorites").map(|(_, n)| *n), Some(0));
}

#[test]
fn default_selection_follows_flags() {
    let mut descriptors = catalog_fixture();
    if let Some(favorites) = descriptors.iter_mut().find(|item| item.name == "core.favorites") {
        favorites.default_selected = true;
    }
    let defaults = default_selection(&descriptors);
    assert_eq!(defaults.datasets, vec!["core.favorites".to_string()]);
    assert!(defaults.include_credentials);
    assert!(defaults.entries.is_empty());
}

#[test]
fn resolved_names_and_ids_are_sorted_and_messages_are_exact() {
    let descriptors = catalog_fixture();
    let resolved = resolve_selection(&descriptors, &pick("ssh.profiles", &["p2", "p1"])).unwrap();
    let names: Vec<&str> = resolved.datasets.iter().map(|(n, _)| n.as_str()).collect();
    assert_eq!(names, vec!["ssh.groups", "ssh.profiles", "ssh.tunnels", "vault.credentials"]);
    assert_eq!(resolved.ids_of("ssh.profiles"), ["p1".to_string(), "p2".to_string()]);
    assert_eq!(
        resolve_selection(&descriptors, &pick("ssh.profiles", &["p9"])).unwrap_err(),
        "数据集 ssh.profiles 中不存在记录 p9（列表可能已过期，请刷新后重选）"
    );
    let unknown = ExportSelection { entries: vec![], datasets: vec!["x.y".into()], include_credentials: false };
    assert_eq!(resolve_selection(&descriptors, &unknown).unwrap_err(), "未知数据集：x.y");
}

#[test]
fn pull_into_missing_dataset_is_rejected() {
    let descriptors = vec![descriptor(
        "a.items",
        TransportPolicy::Portable,
        true,
        vec![("ref", "b.items")],
        vec![entry("a.items", "a1", vec![("ref", "b1")])],
    )];
    assert_eq!(
        resolve_selection(&descriptors, &pick("a.items", &["a1"])).unwrap_err(),
        "数据集 a.items 声明的跟随目标 b.items 不存在"
    );
}

#[test]
fn closure_follows_chains_transitively() {
    let descriptors = vec![
        descriptor("a.x", TransportPolicy::Portable, true, vec![("k", "b.x")], vec![entry("a.x", "1", vec![("k", "2")])]),
        descriptor("b.x", TransportPolicy::Portable, false, vec![("k", "c.x")], vec![entry("b.x", "2", vec![("k", "3")])]),
        descriptor("c.x", TransportPolicy::Portable, false, vec![], vec![]),
    ];
    let resolved = resolve_selection(&descriptors, &pick("a.x", &["1"])).unwrap();
    assert_eq!(resolved.ids_of("c.x"), ["3".to_string()]);
}
