use covekit::data_transfer::records::{descriptor, fields, label, select, string, Field, Record};
use covekit::data_transfer::revision::{is_db_file, storage_revision, RevisionInput};
use covekit::data_transfer::storage_files::{is_plain_relative, sorted_names, tracked_files, validate_relative};
use sha2::{Digest, Sha256};
use covekit::data_transfer::types::TransportPolicy;

fn rec(fields: &[(&str, &str)]) -> Record {
    Record::Object(fields.iter().map(|(k, v)| (k.to_string(), Field::Text(v.to_string()))).collect())
}

#[test]
fn selection_rejects_missing_ids_and_unknown_fields() {
    assert!(select(vec![rec(&[("id", "a")])], &["missing".into()]).is_err());
    let unexpected = Record::Object(vec![
        ("id".to_string(), Field::Text("a".into())),
        ("unexpected".to_string(), Field::Other("1".into())),
    ]);
    assert!(fields(&unexpected, &["id"]).is_err());
}

#[test]
fn selection_keeps_order_and_whole_dataset_on_empty_ids() {
    let records = vec![rec(&[("id", "a")]), rec(&[("id", "b")]), rec(&[("id", "c")])];
    let picked = select(records, &["c".into(), "a".into()]).unwrap();
    assert_eq!(picked, vec![rec(&[("id", "a")]), rec(&[("id", "c")])]);
    let all = select(vec![rec(&[("id", "x")]), Record::Other("3".into())], &[]).unwrap();
    assert_eq!(all.len(), 2);
    assert_eq!(
        select(vec![rec(&[("id", "a")])], &["a".into(), "zz".into()]).unwrap_err(),
        "所选记录已变化，请刷新后重新选择"
    );
}

#[test]
fn string_fields_and_labels() {
    let r = Record::Object(vec![
        ("id".to_string(), Field::Text("p1".into())),
        ("port".to_string(), Field::Other("22".into())),
        ("title".to_string(), Field::Text("跳板机".into())),
    ]);
    assert_eq!(string(&r, "id"), Ok("p1"));
    assert_eq!(string(&r, "port").unwrap_err(), "导入记录字段 port 必须为字符串");
    assert_eq!(string(&r, "missing").unwrap_err(), "导入记录字段 missing 必须为字符串");
    assert_eq!(label(&r), "跳板机");
    assert_eq!(label(&rec(&[("id", "only-id")])), "only-id");
    assert_eq!(label(&Record::Other("[]".into())), "");
    assert_eq!(fields(&Record::Other("[]".into()), &["id"]).unwrap_err(), "导入记录必须是对象");
    assert_eq!(fields(&r, &["id", "port", "title"]), Ok(()));
    assert_eq!(fields(&r, &["id", "port"]).unwrap_err(), "导入记录包含当前版本不支持的字段");
}

#[test]
fn record_catalog_lists_every_record() {
    let records = vec![rec(&[("id", "g1"), ("name", "生产")]), rec(&[("id", "g2")])];
    let d = descriptor("ssh", "ssh.groups", "SSH 分组", &records).unwrap();
    assert_eq!(d.name, "ssh.groups");
    assert_eq!(d.label, "SSH 分组");
    assert_eq!(d.owner, "ssh");
    assert_eq!(d.policy, TransportPolicy::Portable);
    assert!(d.selectable && !d.default_selected && !d.contains_secret);
    assert_eq!(d.record_count, 2);
    assert_eq!(d.entries[0].id, "g1");
    assert_eq!(d.entries[0].label, "生产");
    assert_eq!(d.entries[1].label, "g2");
    let broken = vec![rec(&[("name", "无身份")])];
    assert_eq!(descriptor("ssh", "ssh.groups", "SSH 分组", &broken).unwrap_err(), "导入记录字段 id 必须为字符串");
}

#[test]
fn storage_paths_must_stay_inside_the_space() {
    for ok in ["data/ssh.db", "preferences.json", "a//b", "a/./b", "a/.", "x..y/..z", ".hidden/file"] {
        assert!(is_plain_relative(ok), "{ok}");
    }
    for bad in ["", "/etc/passwd", "..", "../x", "a/../b", "a/..", ".", "./a", "C:/x", "a\\b"] {
        assert!(!is_plain_relative(bad), "{bad}");
        assert_eq!(validate_relative(bad).unwrap_err(), "存储清单含非法相对路径");
    }
}

#[test]
fn tracked_files_are_sorted_without_repeats() {
    let files = tracked_files(&vec!["data/vault.db".into(), "preferences.json".into(), "data/frp.db".into()]).unwrap();
    assert_eq!(
        files,
        vec!["data/frp.db", "data/ssh.db", "data/vault.db", "import-map.json", "preferences.json"]
    );
    assert!(tracked_files(&vec!["../escape".into()]).is_err());
}

#[test]
fn revision_digest_frames_names_logs_and_contents() {
    assert!(is_db_file(b"data/ssh.db"));
    assert!(is_db_file(b"x.db"));
    assert!(!is_db_file(b"data/.db"));
    assert!(!is_db_file(b"preferences.json"));
    assert!(!is_db_file(b"data.db/notes"));

    let files = vec![
        RevisionInput { name: b"data/ssh.db".to_vec(), wal: Some(b"W".to_vec()), content: Some(b"DB".to_vec()) },
        RevisionInput { name: b"notes.txt".to_vec(), wal: Some(b"ignored".to_vec()), content: None },
    ];
    let mut expected = Vec::new();
    expected.extend_from_slice(b"data/ssh.db");
    expected.extend_from_slice(b"W");
    expected.extend_from_slice(&2u64.to_le_bytes());
    expected.extend_from_slice(b"DB");
    expected.extend_from_slice(b"notes.txt");
    expected.extend_from_slice(b"<absent>");
    let want: String = Sha256::digest(&expected).iter().map(|b| format!("{b:02x}")).collect();
    assert_eq!(storage_revision(&files), want);

    let names = sorted_names(&vec!["b".into(), "a".into(), "b".into()]);
    assert_eq!(names, vec!["a".to_string(), "b".to_string()]);
}
