use covekit::credential_refs::{aggregate, CredentialReference, ScanState};

fn reference(owner: &str, credential_id: &str, id: &str, name: &str) -> CredentialReference {
    CredentialReference {
        owner: owner.to_string(),
        credential_id: credential_id.to_string(),
        object_id: id.to_string(),
        object_name: name.to_string(),
    }
}

#[test]
fn counts_references_across_owners() {
    let summary = aggregate(
        "cred-1",
        vec![
            ("ssh", Ok(vec![reference("ssh", "cred-1", "p2", "生产机"), reference("ssh", "cred-1", "p1", "测试机")])),
            ("dns", Ok(vec![reference("dns", "cred-1", "d1", "主域名")])),
        ],
    );
    assert_eq!(summary.total, 3);
    assert!(!summary.has_unknown());
    assert_eq!(summary.owners.len(), 2);
    assert_eq!(summary.owners[0].owner, "dns");
    assert_eq!(summary.owners[1].references[0].object_name, "测试机");
}

#[test]
fn ignores_other_credentials() {
    let summary = aggregate(
        "cred-1",
        vec![("ssh", Ok(vec![reference("ssh", "cred-1", "p1", "A"), reference("ssh", "cred-2", "p2", "B")]))],
    );
    assert_eq!(summary.total, 1);
    assert_eq!(summary.owners[0].references[0].object_id, "p1");
}

#[test]
fn scan_failure_is_unknown_not_zero() {
    let summary = aggregate("cred-1", vec![("ssh", Err("库不可读".to_string())), ("dns", Ok(Vec::new()))]);
    assert_eq!(summary.total, 0);
    assert!(summary.has_unknown());
    assert_eq!(summary.unknown_owners, vec!["ssh".to_string()]);
    let ssh = summary.owners.iter().find(|o| o.owner == "ssh").expect("ssh 结果存在");
    assert_eq!(ssh.status, ScanState::Unknown("库不可读".to_string()));
    assert!(!summary.matches_total(0));
}

#[test]
fn matches_total_detects_stale_confirmation() {
    let summary = aggregate(
        "cred-1",
        vec![("ssh", Ok(vec![reference("ssh", "cred-1", "p1", "A"), reference("ssh", "cred-1", "p2", "B")]))],
    );
    assert!(summary.matches_total(2));
    assert!(!summary.matches_total(1), "确认期间新增引用必须触发复核");
}

#[test]
fn empty_scan_is_ok_with_zero() {
    let summary = aggregate("cred-1", vec![("dns", Ok(Vec::new()))]);
    assert_eq!(summary.total, 0);
    assert!(summary.matches_total(0));
}

#[test]
fn equal_names_are_ordered_by_object_id() {
    let summary = aggregate(
        "c",
        vec![("ssh", Ok(vec![reference("ssh", "c", "p2", "同名"), reference("ssh", "c", "p1", "同名")]))],
    );
    assert_eq!(summary.owners[0].references[0].object_id, "p1");
    assert_eq!(summary.owners[0].status, ScanState::Succeeded);
    assert_eq!(summary.credential_id, "c");
}
