use covekit::ipc_registry::IpcRegistry;
use covekit::module_manifest::{
    declaration_diff, framework_ipc_entries, framework_module, ipc_name, last_segment, validate_command_declarations, validate_routing, ModuleSpec, ModuleTable,
};

fn spec(owner: &str, feature: &str, commands: &[(&str, &str)]) -> ModuleSpec {
    ModuleSpec {
        owner: owner.to_string(),
        feature_id: feature.to_string(),
        rust_path: format!("covekit::plugins::{owner}"),
        storage_key: None,
        commands: commands.iter().map(|(n, d)| (n.to_string(), d.to_string())).collect(),
    }
}

#[test]
fn duplicate_command_registration_is_rejected() {
    let mut registry = IpcRegistry::new();
    registry.register("alpha", &[("dup_cmd", "甲")]).expect("首次登记");
    let err = registry.register("beta", &[("dup_cmd", "乙")]).expect_err("应报重复");
    assert!(err.contains("dup_cmd"), "错误信息应含冲突命令名：{err}");
    assert_eq!(registry.owner_of("dup_cmd"), Some("alpha".to_string()));
}

#[test]
fn module_registration_is_idempotent() {
    let mut table = ModuleTable::new();
    table.register_module(spec("__test_owner__", "__test_owner__", &[("__test_cmd__", "测试命令")])).expect("首次登记应成功");
    table.register_module(spec("__test_owner__", "__test_owner__", &[("__test_cmd__", "测试命令")])).expect("重复登记应成功但不再入表");
    let hits = table.modules().iter().filter(|m| m.owner == "__test_owner__").count();
    assert_eq!(hits, 1, "同一 owner 只应入表一次");
}

#[test]
fn declaration_diff_reports_both_directions() {
    let declared = [("ssh", "ssh_list"), ("dns", "dns_config_get")];
    let registered = [("ssh", "ssh_list"), ("dns", "dns_config_set")];
    let diff = declaration_diff(&declared, &registered);
    assert_eq!(diff.len(), 2, "{diff:?}");
    assert!(diff.iter().any(|line| line.contains("dns::dns_config_get")));
    assert!(diff.iter().any(|line| line.contains("dns::dns_config_set")));
    assert!(declaration_diff(&declared, &declared).is_empty());
}

#[test]
fn last_segment_extracts_function_name() {
    assert_eq!(last_segment("foo"), "foo");
    assert_eq!(last_segment("crate::plugins::http_ws::http::http_request"), "http_request");
}

#[test]
fn ipc_name_alias_is_explicit() {
    assert_eq!(ipc_name("crate::plugins::tts::tts_voices", None), "tts_voices");
    assert_eq!(ipc_name("crate::plugins::tts::tts_voices", Some("voices_legacy")), "voices_legacy");
}

#[test]
fn declaration_diff_lines_are_sorted_and_deduplicated() {
    let declared = [("b", "x"), ("a", "y"), ("a", "y")];
    let registered: [(&str, &str); 0] = [];
    let diff = declaration_diff(&declared, &registered);
    assert_eq!(
        diff,
        vec![
            "命令 a::y 已声明但未登记（清单有、注册表无）".to_string(),
            "命令 b::x 已声明但未登记（清单有、注册表无）".to_string(),
        ]
    );
    let other = declaration_diff(&registered, &declared);
    assert_eq!(other[0], "命令 a::y 已登记但清单未声明（实现了却没入库）");
}

#[test]
fn registry_snapshot_and_command_list_keep_registration_order() {
    let mut registry = IpcRegistry::new();
    registry.register("ssh", &[("ssh_list", "列表"), ("ssh_connect", "连接")]).unwrap();
    registry.register("framework", &[("window_hide", "隐藏")]).unwrap();
    let names: Vec<String> = registry.snapshot().into_iter().map(|e| e.name).collect();
    assert_eq!(names, vec!["ssh_list", "ssh_connect", "window_hide"]);
    let infos = registry.framework_commands();
    assert_eq!(infos[1].name, "ssh_connect");
    assert_eq!(infos[1].doc, "连接");
    assert_eq!(registry.owner_of("window_hide"), Some("framework".to_string()));
    assert_eq!(registry.owner_of("missing"), None);
    registry.reset();
    assert!(registry.snapshot().is_empty());
}

#[test]
fn partial_registration_keeps_commands_before_the_duplicate() {
    let mut registry = IpcRegistry::new();
    registry.register("a", &[("one", "1")]).unwrap();
    let err = registry.register("b", &[("two", "2"), ("one", "1"), ("three", "3")]).unwrap_err();
    assert_eq!(err, "IPC 命令重复注册: one");
    assert_eq!(registry.owner_of("two"), Some("b".to_string()));
    assert_eq!(registry.owner_of("three"), None);
}

#[test]
fn routing_validation_reports_the_first_problem() {
    let mut table = ModuleTable::new();
    table.register_module(spec("http_ws", "http-ws", &[("http_request", "发送")])).unwrap();
    let mut registry = IpcRegistry::new();
    registry.register("http_ws", &[("http_request", "发送")]).unwrap();
    assert_eq!(validate_routing(table.modules(), &registry, &["http_ws"]), Ok(()));
    assert_eq!(
        validate_routing(table.modules(), &registry, &[]),
        Err("模块 http_ws 的命令没有路由分支".to_string())
    );
    registry.register("ghost", &[("ghost_ping", "幽灵命令")]).unwrap();
    assert_eq!(
        validate_routing(table.modules(), &registry, &["http_ws"]),
        Err("IPC 命令 ghost_ping 的归属者 ghost 没有路由分支（plugins/mod.rs 清单缺该模块）".to_string())
    );
    let mut bad = ModuleTable::new();
    bad.register_module(spec("dns", "domain", &[("dns_list", "列表")])).unwrap();
    assert_eq!(
        validate_routing(bad.modules(), &IpcRegistry::new(), &["dns"]),
        Err("模块 covekit::plugins::dns 的 featureId domain 与 owner 不一致".to_string())
    );
    let mut keyed = ModuleTable::new();
    let mut with_key = spec("db", "db", &[("db_list", "列表")]);
    with_key.storage_key = Some("api.db".to_string());
    keyed.register_module(with_key).unwrap();
    assert_eq!(
        validate_routing(keyed.modules(), &IpcRegistry::new(), &["db"]),
        Err("模块 covekit::plugins::db 的存储键 api.db 不合法（只能是文件名主干）".to_string())
    );
}

#[test]
fn command_declarations_must_match_the_registry() {
    let mut table = ModuleTable::new();
    table.register_module(spec("framework", "core", &[("storage_info", "存储")])).unwrap();
    let mut registry = IpcRegistry::new();
    registry.register("framework", &[("storage_info", "存储")]).unwrap();
    assert_eq!(validate_command_declarations(table.modules(), &registry), Ok(()));
    registry.register("framework", &[("storage_other", "其他")]).unwrap();
    let err = validate_command_declarations(table.modules(), &registry).unwrap_err();
    assert!(err.contains("不一致"), "{err}");
    assert_eq!(
        err,
        "IPC 命令清单与注册表不一致（1 处）：\n命令 framework::storage_other 已登记但清单未声明（实现了却没入库）"
    );
}

/// Published framework commands: (owner, IPC name, description).
const PUBLISHED_FRAMEWORK: &[(&str, &str, &str)] = &[
    ("framework", "app_force_exit", "用户强制退出（跳过业务拦截，清理仍受总超时约束）"),
    ("framework", "app_request_exit", "请求退出应用（业务可拒绝，拒绝原因交回前端展示）"),
    ("framework", "framework_tasks", "查询框架长任务清单（活跃与最近结束，供界面与诊断使用）"),
    ("framework", "framework_commands", "查询全量已入库 IPC 命令（名称 + 说明）"),
    ("framework", "open_external", "打开外部链接（tauri-plugin-opener，安全替代 shell 插件）"),
    ("framework", "settings_get", "读取应用设置（可指定 key）"),
    ("framework", "settings_set", "写入应用设置（launchAtStartup 有联动副作用）"),
    ("framework", "settings_patch", "批量写入应用设置（带版本号校验，拒绝陈旧覆盖）"),
    ("framework", "settings_set_tool", "按工具与键写入工具级设置"),
    ("framework", "settings_revision", "读取设置版本号（保存时回传防覆盖）"),
    ("framework", "update_availability", "读取更新可用性（占位公钥等无效配置按不可用上报）"),
    ("framework", "storage_info", "读取存储位置信息（四分区路径与占用、待执行计划、恢复状态）"),
    ("framework", "storage_schedule_migration", "安排存储目录迁移（只登记计划，重启后复制并校验）"),
    ("framework", "storage_cancel_migration", "取消待执行的存储目录迁移计划（不修改业务文件）"),
    ("framework", "storage_recovery_status", "读取存储恢复状态（配置盘不可用或迁移失败）"),
    ("framework", "storage_recovery_action", "执行存储恢复动作（retry/use-default/choose）"),
    ("framework", "vault_delete", "删除凭证（返回被引用计数供前端提示）"),
    ("framework", "vault_export", "密码加密导出 .pbvault 备份（Argon2id 派生密钥）"),
    ("framework", "vault_import", "解密导入 .pbvault 备份（合并/覆盖由 UI 选择）"),
    ("framework", "vault_list", "凭证列表（脱敏摘要：id/name/kind/掩码/时间，无明文）"),
    ("framework", "vault_protection_status", "凭证保护状态（主密钥实际来源与可用性，设置页展示）"),
    ("framework", "vault_credential_references", "查询凭证引用概况（按插件自报能力批量扫描）"),
    ("framework", "vault_reveal", "读取单条凭证明文（仅用户点显示/复制时调用）"),
    ("framework", "vault_save", "新增/更新凭证（payload 打包，id 可选 upsert）"),
    ("framework", "window_hide", "隐藏主窗口（最小化到托盘）"),
    ("framework", "window_toggle", "切换主窗口显示/隐藏（返回切换后可见性）"),
];

#[test]
fn framework_command_table_matches_published() {
    let entries = framework_ipc_entries();
    let mut actual: Vec<(&str, &str, &str)> = entries.iter().map(|(name, doc)| ("framework", name.as_str(), doc.as_str())).collect();
    actual.sort();
    let mut expected: Vec<(&str, &str, &str)> =
        PUBLISHED_FRAMEWORK.iter().filter(|(owner, _, _)| *owner == "framework").copied().collect();
    expected.sort();
    assert_eq!(actual, expected, "框架命令声明与已发布命令表不一致");
}

#[test]
fn framework_module_declares_its_table_without_storage() {
    let module = framework_module();
    assert_eq!(module.owner, "framework");
    assert_eq!(module.feature_id, "core");
    assert_eq!(module.storage_key, None);
    assert_eq!(module.commands, framework_ipc_entries());
    let mut table = ModuleTable::new();
    table.register_module(module).unwrap();
    assert_eq!(table.modules().len(), 1);
}

#[test]
fn registered_command_keeps_its_owner_through_later_registrations() {
    let mut registry = IpcRegistry::new();
    registry.register("ssh", &[("ssh_list", "列表")]).unwrap();
    registry.register("tts", &[("tts_play", "播放"), ("ssh_list", "抢注")]).unwrap_err();
    registry.register("notes", &[("notes_open", "打开")]).unwrap();
    assert_eq!(registry.owner_of("ssh_list"), Some("ssh".to_string()));
    assert_eq!(registry.owner_of("tts_play"), Some("tts".to_string()));
    assert_eq!(registry.owner_of("never_registered"), None);
}
