use covekit::lifecycle::{
    collect_dispose, collect_prepare, compose_decision, dispose_timed_out, CloseReason, DisposeAnswer,
    ExitState, HookTable, ModuleLifecycle, PrepareAnswer, PrepareOutcome, DISPOSE_TIMEOUT_MS,
};

const OWNER_OK: &str = "__test_ok__";
const OWNER_VETO: &str = "__test_veto__";
const OWNER_GLOBAL: &str = "__test_global__";
const TOOL: &str = "__test_tool__";
const OWNER_TAB: &str = "__test_tab__";

/// Asks the planned modules: the veto owner refuses, everyone else allows.
fn ask(planned: Vec<String>, vetoing: &[&str]) -> PrepareOutcome {
    let answers = planned
        .into_iter()
        .map(|owner| {
            let answer = if vetoing.contains(&owner.as_str()) {
                PrepareAnswer::Refused("有未保存内容".to_string())
            } else {
                PrepareAnswer::Allowed
            };
            (owner, answer)
        })
        .collect();
    collect_prepare(answers)
}

#[test]
fn force_flag_round_trip() {
    let mut state = ExitState::new();
    state.clear_force_for_test();
    assert!(!state.force_requested(), "默认不处于强退流程");
    state.set_force_exit();
    assert!(state.force_requested());
    state.clear_force_for_test();
    assert!(!state.force_requested());
}

#[test]
fn close_reason_codes_round_trip() {
    for reason in [
        CloseReason::Tab,
        CloseReason::Exit,
        CloseReason::Restart,
        CloseReason::Update,
        CloseReason::SpaceSwitch,
    ] {
        assert_eq!(CloseReason::from_code(reason.code()), Some(reason));
    }
    assert_eq!(CloseReason::from_code("unknown"), None);
}

#[test]
fn prepare_can_be_rejected() {
    let mut table = HookTable::new();
    table.register(ModuleLifecycle::exit_only(OWNER_OK));
    table.register(ModuleLifecycle::exit_only(OWNER_VETO).with_prepare());
    let planned = table.prepare_plan(CloseReason::Exit, None);
    let outcome = ask(planned, &[OWNER_VETO]);
    assert!(!outcome.proceed, "有拒绝原因时不应继续关闭");
    assert_eq!(outcome.blockers.len(), 1);
    assert!(outcome.blockers[0].starts_with(OWNER_VETO));
}

#[test]
fn decision_merges_both_sides() {
    let frontend = vec!["ssh.sessions: 有未保存内容".to_string()];
    let allowed = compose_decision(false, frontend.clone(), PrepareOutcome { proceed: true, blockers: Vec::new() });
    assert!(!allowed.proceed, "页面 owner 拒绝时后端不能放行");
    assert_eq!(allowed.blockers, frontend);

    let both = compose_decision(
        false,
        vec!["ui.editor: 有未保存内容".into()],
        PrepareOutcome { proceed: false, blockers: vec!["frp: 1 个档案正在运行".into()] },
    );
    assert!(!both.proceed);
    assert_eq!(both.blockers.len(), 2, "两侧原因都要带出，用户才知道该处理谁");
}

#[test]
fn decision_forced_keeps_reasons() {
    let decision = compose_decision(
        true,
        vec!["ui.editor: 有未保存内容".into()],
        PrepareOutcome { proceed: false, blockers: vec!["database: 1 个连接仍在执行查询".into()] },
    );
    assert!(decision.proceed, "强制关闭必须放行");
    assert!(decision.forced);
    assert_eq!(decision.blockers.len(), 2);
}

#[test]
fn tab_close_never_touches_exit_only_modules() {
    let mut table = HookTable::new();
    table.register(ModuleLifecycle::exit_only(OWNER_GLOBAL).with_dispose());
    table.register(ModuleLifecycle::for_tool(OWNER_TAB, TOOL).with_tab_scope().with_prepare().with_dispose());

    let prepared = ask(table.prepare_plan(CloseReason::Tab, Some(TOOL)), &[OWNER_TAB]);
    assert!(!prepared.proceed, "页签级模块的拒绝要能拦住页签关闭");
    let other = ask(table.prepare_plan(CloseReason::Tab, Some("other-tool")), &[OWNER_TAB]);
    assert!(other.proceed, "别的工具关闭时不能问到这个模块");

    let planned = table.dispose_plan(CloseReason::Tab, Some(TOOL));
    assert_eq!(planned, vec![OWNER_TAB.to_string()]);
    let disposed = collect_dispose(planned.into_iter().map(|o| (o, DisposeAnswer::Completed(Vec::new()))).collect());
    assert_eq!(disposed.owners, vec![OWNER_TAB.to_string()]);

    let exit_planned = table.dispose_plan(CloseReason::Exit, None);
    assert_eq!(exit_planned, vec![OWNER_GLOBAL.to_string(), OWNER_TAB.to_string()]);
    let exit_disposed =
        collect_dispose(exit_planned.into_iter().map(|o| (o, DisposeAnswer::Completed(Vec::new()))).collect());
    assert_eq!(exit_disposed.owners, vec![OWNER_GLOBAL.to_string(), OWNER_TAB.to_string()]);
}

#[test]
fn tab_close_without_tool_asks_nobody() {
    let mut table = HookTable::new();
    table.register(ModuleLifecycle::for_tool(OWNER_TAB, TOOL).with_tab_scope().with_prepare());
    let planned = table.prepare_plan(CloseReason::Tab, None);
    assert!(planned.is_empty());
    let outcome = ask(planned, &[OWNER_TAB]);
    assert!(outcome.proceed);
    assert!(outcome.blockers.is_empty());
}

#[test]
fn dispose_collects_failures_with_owner() {
    let mut table = HookTable::new();
    table.register(ModuleLifecycle::exit_only(OWNER_OK).with_dispose());
    table.register(ModuleLifecycle::exit_only("__test_fail__").with_dispose());
    let planned = table.dispose_plan(CloseReason::Exit, None);
    let answers = planned
        .into_iter()
        .map(|owner| {
            let answer = if owner == "__test_fail__" {
                DisposeAnswer::Completed(vec!["断开连接失败".to_string()])
            } else {
                DisposeAnswer::Completed(Vec::new())
            };
            (owner, answer)
        })
        .collect();
    let outcome = collect_dispose(answers);
    assert!(!outcome.timed_out);
    assert_eq!(outcome.owners.len(), 2, "两个 dispose 钩子都应跑完");
    assert_eq!(outcome.failures.len(), 1);
    assert!(outcome.failures[0].contains("断开连接失败"));
    assert!(outcome.failures[0].contains("__test_fail__"));
}

#[test]
fn dispose_times_out_without_blocking_exit() {
    let outcome = dispose_timed_out(50);
    assert!(outcome.timed_out, "超过总超时应标记超时");
    assert!(outcome.owners.is_empty());
    assert!(outcome.failures[0].contains("总超时"));
    assert_eq!(outcome.failures[0], "关闭清理总超时（50 ms）：未完成的模块按清理失败处理");
    assert_eq!(DISPOSE_TIMEOUT_MS, 5000);
}

#[test]
fn register_replaces_same_owner() {
    let mut table = HookTable::new();
    table.register(ModuleLifecycle::exit_only("__test_dup__").with_dispose());
    table.register(ModuleLifecycle::exit_only("__test_dup__"));
    let owners = table.registered_owners();
    assert_eq!(owners.iter().filter(|o| *o == "__test_dup__").count(), 1, "同 owner 只保留一条登记");
    assert!(table.dispose_plan(CloseReason::Exit, None).is_empty(), "覆盖后的登记生效");
}

#[test]
fn panicking_hooks_count_as_refusal_and_failure() {
    let prepared = collect_prepare(vec![("m".to_string(), PrepareAnswer::Panicked)]);
    assert!(!prepared.proceed);
    assert_eq!(prepared.blockers, vec!["m: 关闭前询问异常（已兜住，按拒绝处理）".to_string()]);
    let disposed = collect_dispose(vec![("m".to_string(), DisposeAnswer::Panicked)]);
    assert!(disposed.owners.is_empty());
    assert_eq!(disposed.failures, vec!["m: 清理钩子异常（已兜住，计入失败）".to_string()]);
}

#[test]
fn modules_without_prepare_hook_are_still_planned_but_dispose_needs_a_hook() {
    let mut table = HookTable::new();
    table.register(ModuleLifecycle::exit_only("a"));
    assert_eq!(table.prepare_plan(CloseReason::Update, None), vec!["a".to_string()]);
    assert!(table.dispose_plan(CloseReason::Update, None).is_empty());
    table.clear();
    assert!(table.registered_owners().is_empty());
}
