use covekit::window::{window_toggle, WindowAction, WindowState};
use covekit::credentials::{secrets_file_at, valid_namespace};
use covekit::data_transfer::datasets::{
    key_of, parse_import_mode, plan_mode_name, ImportMode, DATASET_FAVORITES, DATASET_RECENT,
};
use covekit::resource_monitor::{attributable_rows, descendants, is_webview_name, missing_processes, process_kind};

#[test]
fn namespace_whitelist() {
    assert!(valid_namespace("database"));
    assert!(valid_namespace("ssh-profile"));
    assert!(valid_namespace("a_b-c1"));
    assert!(!valid_namespace(""));
    assert!(!valid_namespace(".."));
    assert!(!valid_namespace("a/b"));
    assert!(!valid_namespace("a\\b"));
    assert!(!valid_namespace("中文"));
    assert!(!valid_namespace(&"x".repeat(33)));
}

#[test]
fn namespace_file_lives_in_the_credentials_directory() {
    assert_eq!(secrets_file_at("/d/data", "database").unwrap(), "/d/data/credentials/database.enc");
    assert_eq!(secrets_file_at("/d/data", "../x").unwrap_err(), "凭证命名空间非法：../x");
    assert!(valid_namespace(&"x".repeat(32)));
}

#[test]
fn dataset_names_map_to_existing_keys() {
    assert_eq!(key_of(DATASET_FAVORITES).unwrap(), "favorites");
    assert_eq!(key_of(DATASET_RECENT).unwrap(), "recentTools");
    assert!(key_of("core.theme").is_err());
    assert_eq!(key_of("core.theme").unwrap_err(), "偏好适配器不支持数据集 core.theme");
}

#[test]
fn import_modes_follow_the_contract_names() {
    assert_eq!(parse_import_mode(None), Ok(ImportMode::NewSpace));
    for mode in [ImportMode::NewSpace, ImportMode::Merge, ImportMode::Overwrite] {
        assert_eq!(parse_import_mode(Some(plan_mode_name(mode))), Ok(mode));
    }
    assert_eq!(parse_import_mode(Some("replace")), Err("不认识的导入模式 replace".to_string()));
}

#[test]
fn descendants_excludes_other_apps_and_handles_out_of_order_rows() {
    let ids = descendants(10, &[(12, 11), (99, 1), (11, 10), (13, 99)]);
    assert_eq!(ids.into_iter().collect::<Vec<_>>(), vec![10, 11, 12]);
}

#[test]
fn descendants_of_a_leaf_is_the_leaf() {
    let ids = descendants(7, &[(8, 9)]);
    assert_eq!(ids.into_iter().collect::<Vec<_>>(), vec![7]);
}

#[test]
fn window_toggle_flips_visibility() {
    assert_eq!(window_toggle(true), (WindowAction::Hide, WindowState { visible: false }));
    assert_eq!(window_toggle(false), (WindowAction::Show, WindowState { visible: true }));
}

#[test]
fn reused_pids_do_not_inherit_old_parents() {
    // (pid, parent, started): 12 started before its claimed parent 11, so 11 -> 12 does not count.
    let rows = [(10, 1, 100), (11, 10, 200), (12, 11, 150), (13, 10, 300), (14, 99, 400)];
    let links = attributable_rows(&rows);
    assert_eq!(links, vec![(11, 10), (13, 10)]);
    let tree: Vec<u32> = descendants(10, &links).into_iter().collect();
    assert_eq!(tree, vec![10, 11, 13]);
}

#[test]
fn process_kinds_and_missing_count() {
    assert_eq!(process_kind(10, 10, "covekit.exe"), "main");
    assert_eq!(process_kind(11, 10, "MSEdgeWebView2.exe"), "webview");
    assert_eq!(process_kind(12, 10, "helper.exe"), "child");
    assert!(is_webview_name("msedgewebview2.EXE"));
    assert!(!is_webview_name("msedgewebview.exe"));
    assert_eq!(missing_processes(5, 3), 2);
    assert_eq!(missing_processes(2, 3), 0);
}
