use covekit::brand_compat::{adoption, Adoption, LegacyBootstrap, LEGACY_APP_ID};
use covekit::secure_store::recovery::{backup_needed, load_action, LoadAction, Probe};

const BAK: &str = "/data/vault/secrets.bak";

#[test]
fn empty_environment_loads_nothing() {
    assert_eq!(load_action(&Probe::Missing, &Probe::Missing, BAK), LoadAction::Empty);
}

#[test]
fn committed_main_wins_and_backup_is_not_read() {
    assert!(!backup_needed(&Probe::Opened));
    assert!(backup_needed(&Probe::Missing));
    assert!(backup_needed(&Probe::Unreadable("x".into())));
    assert_eq!(load_action(&Probe::Opened, &Probe::Unreadable("坏".into()), BAK), LoadAction::UseMain);
    assert_eq!(load_action(&Probe::Opened, &Probe::Missing, BAK), LoadAction::UseMain);
}

#[test]
fn interrupted_write_promotes_the_backup() {
    assert_eq!(load_action(&Probe::Missing, &Probe::Opened, BAK), LoadAction::PromoteBackup);
    assert_eq!(
        load_action(&Probe::Unreadable("认证失败".into()), &Probe::Opened, BAK),
        LoadAction::ArchiveMainPromoteBackup
    );
}

#[test]
fn unusable_copies_are_reported_not_emptied() {
    assert_eq!(
        load_action(&Probe::Missing, &Probe::Unreadable("解密失败".into()), BAK),
        LoadAction::Fail("备份无法读取且主文件不存在（备份保留在 /data/vault/secrets.bak）: 解密失败".into())
    );
    assert_eq!(
        load_action(&Probe::Unreadable("认证失败".into()), &Probe::Missing, BAK),
        LoadAction::Fail("认证失败".into())
    );
    assert_eq!(
        load_action(&Probe::Unreadable("认证失败".into()), &Probe::Unreadable("解析失败".into()), BAK),
        LoadAction::Fail("认证失败；备份同样无法读取（两个文件均保留原样）: 解析失败".into())
    );
}

#[test]
fn current_settings_are_never_replaced() {
    assert_eq!(adoption(&LegacyBootstrap::CurrentExists, "/cfg/old"), Adoption::Skip);
    assert_eq!(LEGACY_APP_ID, "com.patchy23.patchybox");
}

#[test]
fn old_spaces_without_settings_stop_adoption() {
    assert_eq!(adoption(&LegacyBootstrap::Missing { spaces_exist: false }, "/cfg/old"), Adoption::Skip);
    assert_eq!(
        adoption(&LegacyBootstrap::Missing { spaces_exist: true }, "/cfg/old"),
        Adoption::Fail("发现旧数据空间但缺少 settings.json，已停止接续以保留现场".into())
    );
}

#[test]
fn broken_old_settings_are_refused() {
    assert_eq!(
        adoption(&LegacyBootstrap::Corrupt("expected value".into()), "/cfg/old"),
        Adoption::Fail("旧安装自举损坏：expected value".into())
    );
    assert_eq!(
        adoption(&LegacyBootstrap::ReadFailed("permission denied".into()), "/cfg/old"),
        Adoption::Fail("读取旧安装自举失败：permission denied".into())
    );
    assert_eq!(
        adoption(&LegacyBootstrap::Parsed { app: None }, "/cfg/old"),
        Adoption::Fail("旧安装自举缺少 app 对象".into())
    );
}

#[test]
fn old_default_root_is_written_down_and_custom_root_kept() {
    assert_eq!(
        adoption(&LegacyBootstrap::Parsed { app: Some(Some("".into())) }, "/cfg/old"),
        Adoption::Write { storage_root: "/cfg/old".into() }
    );
    assert_eq!(
        adoption(&LegacyBootstrap::Parsed { app: Some(None) }, "/cfg/old"),
        Adoption::Write { storage_root: "/cfg/old".into() }
    );
    assert_eq!(
        adoption(&LegacyBootstrap::Parsed { app: Some(Some("  /mnt/custom-data ".into())) }, "/cfg/old"),
        Adoption::Write { storage_root: "/mnt/custom-data".into() }
    );
}
