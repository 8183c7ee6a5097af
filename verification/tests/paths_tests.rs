use std::path::PathBuf;

use covekit::context::{ContextRuntime, StorageLocation};
use covekit::paths::{
    asset_scope_dirs, current_location, data_path, partition_dir, partition_path, resolve_root, resolve_root_with, scoped_dir,
    storage_root, valid_scope,
};

const SPACE: &str = "9f1c4e2a-1111-4111-8111-111111111111";

#[test]
fn resolve_root_falls_back_for_empty_or_relative() {
    let default = "C:/default-root";
    assert_eq!(resolve_root("", default), default);
    assert_eq!(resolve_root("   ", default), default);
    assert_eq!(resolve_root("relative/dir", default), default);
    let absolute = "/data/box";
    assert_eq!(resolve_root(absolute, default), absolute);
    assert_eq!(resolve_root("  /data/box  ", default), absolute);
}

#[test]
fn valid_scope_rejects_path_traversal() {
    assert!(valid_scope("ssh"));
    assert!(valid_scope("tts"));
    assert!(!valid_scope(""));
    assert!(!valid_scope(".."));
    assert!(!valid_scope("../evil"));
    assert!(!valid_scope("a/b"));
    assert!(!valid_scope("a\\b"));
    assert!(!valid_scope("."));
}

#[test]
fn partition_path_follows_descriptor_fields() {
    let location = StorageLocation::for_space("D:/pb-root", SPACE);
    assert_eq!(partition_path(&location, "data").unwrap(), location.data);
    assert_eq!(partition_path(&location, "vault").unwrap(), location.vault);
    assert_eq!(partition_path(&location, "logs").unwrap(), location.logs);
    assert_eq!(partition_path(&location, "cache").unwrap(), location.cache);
    assert!(partition_path(&location, "spaces").is_none());
    assert_eq!(
        PathBuf::from(partition_path(&location, "logs").unwrap()),
        PathBuf::from("D:/pb-root/logs/9f1c4e2a-1111-4111-8111-111111111111")
    );
}

#[test]
fn asset_scope_stays_inside_cache_partition() {
    let location = StorageLocation::for_space("D:/pb-root", SPACE);
    let dirs: Vec<PathBuf> = asset_scope_dirs(&location).into_iter().map(PathBuf::from).collect();
    assert_eq!(dirs, vec![PathBuf::from("D:/pb-root/cache/9f1c4e2a-1111-4111-8111-111111111111/tts")]);
    for dir in dirs {
        assert!(!dir.starts_with(&location.data), "不得授权数据分区");
        assert!(!dir.starts_with(&location.vault), "不得授权凭证分区");
        assert!(dir.starts_with(&location.cache));
    }
}

#[test]
fn partition_dir_refuses_bad_names_and_places_others_under_the_space_root() {
    let location = StorageLocation::for_space("/r", SPACE);
    assert_eq!(partition_dir(&location, "data").unwrap(), location.data);
    assert_eq!(partition_dir(&location, "agents").unwrap(), format!("/r/spaces/{SPACE}/agents"));
    assert_eq!(partition_dir(&location, "../x").unwrap_err(), "分区名非法: ../x");
}

#[test]
fn scoped_dir_and_data_path_check_names() {
    let location = StorageLocation::for_space("/r", SPACE);
    assert_eq!(scoped_dir(&location, "logs", "ssh").unwrap(), format!("/r/logs/{SPACE}/ssh"));
    assert_eq!(scoped_dir(&location, "cache", "tts").unwrap(), format!("/r/cache/{SPACE}/tts"));
    assert_eq!(scoped_dir(&location, "logs", "a/b").unwrap_err(), "作用域名非法: a/b");
    assert_eq!(scoped_dir(&location, "..", "ssh").unwrap_err(), "分区名非法: ..");
    assert_eq!(data_path(&location, "ssh.db").unwrap(), format!("/r/spaces/{SPACE}/data/ssh.db"));
    assert_eq!(data_path(&location, "..").unwrap_err(), "文件名非法: ..");
}

#[test]
fn storage_root_prefers_the_fixed_context() {
    let mut runtime = ContextRuntime::new();
    assert_eq!(storage_root(&runtime, "relative", "/default"), "/default");
    assert_eq!(storage_root(&runtime, " /configured ", "/default"), "/configured");
    assert_eq!(current_location(&runtime).unwrap_err(), "数据上下文未初始化，存储位置不可得");
    runtime.init(StorageLocation::for_space("/fixed", SPACE));
    assert_eq!(storage_root(&runtime, "/configured", "/default"), "/fixed");
    assert_eq!(current_location(&runtime).unwrap().device_root, "/fixed");
}

#[test]
fn root_follows_the_platform_verdict() {
    let default = "/default-root";
    assert_eq!(resolve_root_with("  D:/data/box ", default, true), "D:/data/box");
    assert_eq!(resolve_root_with("D:/data/box", default, false), default);
    assert_eq!(resolve_root_with("   ", default, true), default);
    assert_eq!(resolve_root_with("/data/box", default, true), "/data/box");
}
