use std::path::PathBuf;

use covekit::context::{ContextRuntime, StorageLocation, WriteFreezeGuard};

const SPACE_A: &str = "9f1c4e2a-1111-4111-8111-111111111111";
const SPACE_B: &str = "bbbb2222-2222-4222-8222-222222222222";

fn path(s: &str) -> PathBuf {
    PathBuf::from(s)
}

#[test]
fn space_location_layout() {
    let loc = StorageLocation::for_space("D:/pb-root", SPACE_A);
    assert_eq!(path(&loc.device_root), PathBuf::from("D:/pb-root"));
    assert_eq!(path(&loc.root), PathBuf::from("D:/pb-root/spaces").join(SPACE_A));
    assert_eq!(path(&loc.data), path(&loc.root).join("data"));
    assert_eq!(path(&loc.vault), path(&loc.root).join("vault"));
    assert_eq!(path(&loc.logs), PathBuf::from("D:/pb-root/logs").join(SPACE_A));
    assert_eq!(path(&loc.cache), PathBuf::from("D:/pb-root/cache").join(SPACE_A));
    assert_eq!(loc.space_id, SPACE_A);
}

#[test]
fn spaces_do_not_share_data_dirs() {
    let device_root = "D:/pb-root";
    let a = StorageLocation::for_space(device_root, SPACE_A);
    let b = StorageLocation::for_space(device_root, SPACE_B);
    assert_ne!(a.data, b.data, "数据分区不得重叠");
    assert_ne!(a.vault, b.vault, "凭证分区不得重叠");
    assert_ne!(a.logs, b.logs, "日志分区不得重叠");
    assert_ne!(a.cache, b.cache, "缓存分区不得重叠");
}

#[test]
fn context_is_fixed_once() {
    let mut runtime = ContextRuntime::new();
    let (first_epoch, first_root) = {
        let first = runtime.init(StorageLocation::for_space("D:/pb-first", SPACE_A));
        (first.epoch(), first.location().root.clone())
    };
    let second = runtime.init(StorageLocation::for_space("D:/pb-second", SPACE_B));
    assert_eq!(second.epoch(), first_epoch, "上下文必须唯一");
    assert_eq!(second.location().root, first_root);
    assert_eq!(path(&first_root), PathBuf::from("D:/pb-first/spaces").join(SPACE_A));
    assert_eq!(
        runtime.current().map(|ctx| path(&ctx.location().root)),
        Some(PathBuf::from("D:/pb-first/spaces").join(SPACE_A))
    );
    assert_eq!(runtime.current().map(|ctx| ctx.space_id().to_string()), Some(SPACE_A.to_string()));
}

#[test]
fn write_freeze_blocks_and_recovers() {
    let mut runtime = ContextRuntime::new();
    assert!(runtime.assert_writable().is_ok());
    let freeze = WriteFreezeGuard::begin(&mut runtime);
    assert!(runtime.writes_frozen());
    let error = runtime.assert_writable().expect_err("冻结窗口内写入必须被拒");
    assert!(error.contains("导入"), "{error}");
    freeze.release(&mut runtime);
    assert!(!runtime.writes_frozen());
    assert!(runtime.assert_writable().is_ok(), "守卫离开后必须恢复可写");
}

#[test]
fn epoch_gates_late_events() {
    let mut runtime = ContextRuntime::new();
    let epoch = runtime.init(StorageLocation::for_space("D:/pb-first", SPACE_A)).epoch();
    runtime.reset_for_test();
    assert!(runtime.is_current(epoch));
    assert!(!runtime.is_current(epoch.wrapping_add(1)));
    runtime.note_stale_dropped();
    runtime.note_stale_dropped();
    assert_eq!(runtime.stale_dropped(), 2);
}

#[test]
fn context_is_absent_before_init() {
    let runtime = ContextRuntime::new();
    assert!(runtime.current().is_none());
    assert!(runtime.location().is_none());
    assert!(runtime.root().is_none());
    assert!(!runtime.is_current(1));
}

#[test]
fn first_epoch_is_one_and_root_is_the_device_root() {
    let mut runtime = ContextRuntime::new();
    assert_eq!(runtime.init(StorageLocation::for_space("/data/box", SPACE_B)).epoch(), 1);
    assert_eq!(runtime.root(), Some("/data/box"));
}

#[test]
fn absolute_space_id_replaces_the_base_as_a_path_join_does() {
    let loc = StorageLocation::for_space("/r", "/elsewhere");
    assert_eq!(loc.root, "/elsewhere");
    assert_eq!(loc.data, "/elsewhere/data");
    assert_eq!(loc.logs, "/elsewhere");
    let trailing = StorageLocation::for_space("/r/", SPACE_A);
    assert_eq!(trailing.root, format!("/r/spaces/{SPACE_A}"));
}

#[test]
fn first_init_fixes_the_context_for_every_later_state() {
    let mut runtime = ContextRuntime::new();
    assert!(!runtime.is_current(1));
    assert_eq!(runtime.root(), None);
    let epoch = runtime.init(StorageLocation::for_space("/dev-root", "space-a")).epoch();
    let guard = WriteFreezeGuard::begin(&mut runtime);
    guard.release(&mut runtime);
    runtime.init(StorageLocation::for_space("/other", "space-b"));
    runtime.note_stale_dropped();
    runtime.note_stale_dropped();
    assert_eq!(runtime.stale_dropped(), 2);
    assert_eq!(runtime.current().unwrap().space_id(), "space-a");
    assert_eq!(runtime.root(), Some("/dev-root"));
    assert!(runtime.is_current(epoch));
    assert!(!runtime.is_current(epoch + 1));
}
