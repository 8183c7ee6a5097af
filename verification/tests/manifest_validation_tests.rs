use covekit::data_transfer::json_shape::{json_depth, JsonShape};
use covekit::data_transfer::manifest::{
    dataset_digest, validate_manifest, CarriedRecords, DatasetBlock, PackageManifest, RecordBody,
    MAX_JSON_DEPTH, MAX_RECORDS_PER_PACKAGE, MAX_RECORD_BYTES,
};
use covekit::data_transfer::types::{DependencyEdge, TransportPolicy};
use serde_json::Value;

fn shape(value: &Value) -> JsonShape {
    match value {
        Value::Array(items) => JsonShape::Array(items.iter().map(shape).collect()),
        Value::Object(map) => JsonShape::Object(map.values().map(shape).collect()),
        _ => JsonShape::Scalar,
    }
}

fn json(text: &str) -> Value {
    serde_json::from_str(text).unwrap()
}

fn body(items: &[Value]) -> (Vec<u8>, Vec<RecordBody>) {
    let array = Value::Array(items.to_vec());
    let serialized = serde_json::to_vec(&array).unwrap();
    let records = items
        .iter()
        .map(|item| RecordBody { bytes: serde_json::to_vec(item).unwrap(), shape: shape(item) })
        .collect();
    (serialized, records)
}

fn block(name: &str, policy: TransportPolicy, items: Vec<Value>) -> DatasetBlock {
    let (serialized, records) = body(&items);
    DatasetBlock {
        name: name.into(),
        schema_version: 1,
        policy,
        record_count: items.len(),
        sha256: dataset_digest(&serialized),
        records: Some(CarriedRecords::Array { serialized, items: records }),
    }
}

fn manifest() -> PackageManifest {
    PackageManifest::new("default", "默认空间", "0.1.0", "linux")
}

#[test]
fn consistent_manifest_passes() {
    let mut manifest = manifest();
    manifest.datasets.push(block("ssh.profiles", TransportPolicy::Portable, vec![json(r#"{"id":"p1","host":"example.com"}"#)]));
    manifest.dependencies.push(DependencyEdge { kind: "credential".into(), from_id: "p1".into(), to_id: "cred-1".into() });
    assert!(validate_manifest(&manifest).is_ok());
    assert_eq!(manifest.platform, "linux");
    assert!(manifest.created_at.len() > 10);
    assert_eq!(manifest.package_id.len(), 36);
}

#[test]
fn bad_shapes_rejected() {
    let mut manifest = manifest();
    assert!(validate_manifest(&manifest).is_err());
    manifest.datasets.push(block("ssh.profiles", TransportPolicy::Portable, vec![json(r#"{"id":"p1"}"#)]));
    manifest.datasets.push(block("ssh.profiles", TransportPolicy::Portable, vec![json(r#"{"id":"p2"}"#)]));
    assert!(validate_manifest(&manifest).is_err());
    manifest.datasets.pop();
    manifest.datasets[0].schema_version = 0;
    assert!(validate_manifest(&manifest).is_err());
    manifest.datasets[0].schema_version = 1;
    assert!(validate_manifest(&manifest).is_ok());
}

#[test]
fn secret_carries_records_only_when_selected() {
    let mut manifest = manifest();
    manifest.datasets.push(block("vault.credentials", TransportPolicy::Secret, vec![json(r#"{"id":"c1","password":"x"}"#)]));
    assert!(validate_manifest(&manifest).is_ok(), "勾选带出凭证时 secret 块必须能携带记录");
    manifest.datasets[0].records = None;
    assert!(validate_manifest(&manifest).is_ok());

    let mut device = PackageManifest::new("default", "默认空间", "0.1.0", "linux");
    device.datasets.push(block("frp.paths", TransportPolicy::DeviceLocal, vec![json(r#"{"id":"p1"}"#)]));
    assert!(validate_manifest(&device).is_err());
    device.datasets[0].records = None;
    assert!(validate_manifest(&device).is_ok());

    manifest.datasets[0].policy = TransportPolicy::Portable;
    assert!(validate_manifest(&manifest).is_err());
    manifest.datasets[0].record_count = 0;
    assert!(validate_manifest(&manifest).is_ok());
}

#[test]
fn count_and_digest_mismatch_rejected() {
    let mut manifest = manifest();
    manifest.datasets.push(block(
        "ssh.bookmarks",
        TransportPolicy::Portable,
        vec![json(r#"{"id":"b1"}"#), json(r#"{"id":"b2"}"#)],
    ));
    manifest.datasets[0].record_count = 3;
    assert!(validate_manifest(&manifest).is_err());
    manifest.datasets[0].record_count = 2;
    let good = manifest.datasets[0].sha256.clone();
    manifest.datasets[0].sha256 = "00".repeat(32);
    assert!(validate_manifest(&manifest).is_err());
    manifest.datasets[0].sha256 = good;
    assert!(validate_manifest(&manifest).is_ok());
}

#[test]
fn oversized_and_deep_records_rejected() {
    let mut manifest = manifest();
    let big = "x".repeat(MAX_RECORD_BYTES + 1);
    let mut record = serde_json::Map::new();
    record.insert("id".into(), Value::String("t1".into()));
    record.insert("blob".into(), Value::String(big));
    manifest.datasets.push(block("ssh.tunnels", TransportPolicy::Portable, vec![Value::Object(record)]));
    assert!(validate_manifest(&manifest).is_err());

    let mut deep = json("0");
    for _ in 0..MAX_JSON_DEPTH {
        deep = Value::Array(vec![deep]);
    }
    assert_eq!(json_depth(&shape(&deep)), MAX_JSON_DEPTH + 1);
    manifest.datasets[0] = block("ssh.tunnels", TransportPolicy::Portable, vec![deep]);
    assert!(validate_manifest(&manifest).is_err());
}

#[test]
fn too_many_records_rejected() {
    let mut manifest = manifest();
    let items: Vec<Value> = (0..(MAX_RECORDS_PER_PACKAGE + 1)).map(|_| json("0")).collect();
    manifest.datasets.push(block("history.recent", TransportPolicy::History, items));
    assert!(validate_manifest(&manifest).is_err());
}

#[test]
fn json_depth_counts_nesting() {
    assert_eq!(json_depth(&shape(&json("1"))), 1);
    assert_eq!(json_depth(&shape(&json("[1, 2]"))), 2);
    assert_eq!(json_depth(&shape(&json(r#"{"a": [1]}"#))), 3);
}

#[test]
fn digest_is_lowercase_hex_sha256() {
    assert_eq!(dataset_digest(b"abc"), "ba7816bf8f01cfea414140de5dae2223b00361a396177a9cb410ff61f20015ad");
    assert_eq!(dataset_digest(b""), "e3b0c44298fc1c149afbf4c8996fb92427ae41e4649b934ca495991b7852b855");
}

#[test]
fn refusal_messages_are_exact() {
    let mut manifest = manifest();
    assert_eq!(validate_manifest(&manifest), Err("数据包清单没有任何数据集".to_string()));
    manifest.datasets.push(block("a.b", TransportPolicy::Portable, vec![json("1")]));
    manifest.datasets[0].record_count = 3;
    assert_eq!(
        validate_manifest(&manifest),
        Err("数据集 a.b 的记录数与声明不一致（声明 3，实际 1）".to_string())
    );
    manifest.datasets[0].record_count = 1;
    manifest.datasets[0].records = Some(CarriedRecords::NotArray);
    assert_eq!(validate_manifest(&manifest), Err("数据集 a.b 的记录体不是数组".to_string()));
    manifest.datasets[0].records = None;
    assert_eq!(validate_manifest(&manifest), Err("数据集 a.b 声明有 1 条记录但记录体缺失".to_string()));
    manifest.package_id = "  ".into();
    assert_eq!(validate_manifest(&manifest), Err("数据包清单缺少 packageId".to_string()));
}
