use covekit::data_transfer::import_checks::{
    check_package_unchanged, check_revision, check_same_package, duplicate_refusal, find_duplicate, new_space_name,
    DuplicateHint, IndexedSpace,
};

fn space(id: &str, name: &str, from: Option<(&str, &str)>) -> IndexedSpace {
    IndexedSpace {
        space_id: id.into(),
        display_name: name.into(),
        imported_from: from.map(|(p, at)| (p.to_string(), at.to_string())),
    }
}

#[test]
fn duplicate_is_the_first_space_from_the_package() {
    let index = vec![
        space("a", "默认空间", None),
        space("b", "导入 1", Some(("pkg-1", "2026-01-01T00:00:00Z"))),
        space("c", "导入 2", Some(("pkg-1", "2026-02-01T00:00:00Z"))),
    ];
    let hint = find_duplicate(&index, "pkg-1").unwrap();
    assert_eq!(
        hint,
        DuplicateHint { space_id: "b".into(), space_name: "导入 1".into(), imported_at: "2026-01-01T00:00:00Z".into() }
    );
    assert_eq!(find_duplicate(&index, "pkg-2"), None);
    assert_eq!(
        duplicate_refusal(&hint),
        "该数据包已于 2026-01-01T00:00:00Z 导入到空间「导入 1」；确认要再导入一份时请显式选择"
    );
}

#[test]
fn new_space_needs_a_name() {
    assert_eq!(new_space_name("  工作  ").unwrap(), "工作");
    assert_eq!(new_space_name("   ").unwrap_err(), "请为新空间命名");
}

#[test]
fn commit_rechecks_file_package_and_revision() {
    assert!(check_package_unchanged("abc", "abc").is_ok());
    assert_eq!(check_package_unchanged("abd", "abc").unwrap_err(), "数据包内容已改变，请重新预览后再提交");
    assert!(check_same_package("p1", "p1").is_ok());
    assert_eq!(check_same_package("p2", "p1").unwrap_err(), "数据包与预览的不是同一份，请重新预览后再提交");
    assert!(check_revision(Some("r1"), "r1").is_ok());
    assert_eq!(check_revision(Some("r1"), "r2").unwrap_err(), "预览之后本地数据有变化，请重新预览后再提交");
    assert_eq!(check_revision(None, "r2").unwrap_err(), "预览之后本地数据有变化，请重新预览后再提交");
}
