use covekit::exit::{commit_decision, force_exit_decision, parse_reason, parse_request, surfaces_veto, CloseRequest};
use covekit::lifecycle::{compose_decision, CloseReason, DisposeOutcome, PrepareOutcome};

#[test]
fn parse_reason_is_strict() {
    assert_eq!(parse_reason(None), Ok(CloseReason::Exit));
    assert_eq!(parse_reason(Some("")), Ok(CloseReason::Exit));
    assert_eq!(parse_reason(Some("update")), Ok(CloseReason::Update));
    assert!(parse_reason(Some("quit-now")).is_err());
}

#[test]
fn parse_request_requires_tool_for_tab() {
    let missing = CloseRequest { reason: Some("tab".into()), tool_id: None, blockers: Vec::new(), force: false };
    assert!(parse_request(&missing).is_err());
    let blank = CloseRequest { reason: Some("tab".into()), tool_id: Some("   ".into()), ..missing };
    assert!(parse_request(&blank).is_err(), "空白 toolId 不算给了工具");
    let given = CloseRequest {
        reason: Some("tab".into()),
        tool_id: Some("ssh".into()),
        blockers: vec!["ui.editor: 有未保存内容".into()],
        force: false,
    };
    assert_eq!(parse_request(&given), Ok((CloseReason::Tab, Some("ssh".to_string()))));
}

#[test]
fn parse_request_allows_exit_without_tool() {
    let request = CloseRequest { reason: None, tool_id: None, blockers: Vec::new(), force: false };
    assert_eq!(parse_request(&request), Ok((CloseReason::Exit, None)));
}

#[test]
fn forced_decision_keeps_reasons() {
    let outcome = PrepareOutcome { proceed: false, blockers: vec!["frp: 1 个档案正在运行".into()] };
    let decision = compose_decision(true, Vec::new(), outcome);
    assert!(decision.proceed);
    assert!(decision.forced);
    assert_eq!(decision.blockers.len(), 1);
}

#[test]
fn unknown_reason_message_names_the_code() {
    assert_eq!(
        parse_reason(Some("quit-now")),
        Err("未知的关闭原因 `quit-now`（支持 exit/restart/update/tab/space-switch）".to_string())
    );
    let request = CloseRequest { reason: Some("tab".into()), tool_id: None, blockers: Vec::new(), force: false };
    assert_eq!(parse_request(&request), Err("页签关闭必须带 toolId（不猜要关哪个工具的模块）".to_string()));
}

#[test]
fn tool_id_is_trimmed_and_ignored_outside_tab() {
    let request = CloseRequest {
        reason: Some("restart".into()),
        tool_id: Some("  ssh ".into()),
        blockers: Vec::new(),
        force: false,
    };
    assert_eq!(parse_request(&request), Ok((CloseReason::Restart, Some("ssh".to_string()))));
}

#[test]
fn veto_is_surfaced_for_exit_family_only() {
    let refused = compose_decision(false, vec!["a: b".into()], PrepareOutcome { proceed: true, blockers: Vec::new() });
    assert!(surfaces_veto(&refused, CloseReason::Exit));
    assert!(!surfaces_veto(&refused, CloseReason::Tab));
    let allowed = compose_decision(false, Vec::new(), PrepareOutcome { proceed: true, blockers: Vec::new() });
    assert!(!surfaces_veto(&allowed, CloseReason::Exit));
}

#[test]
fn commit_reports_tab_cleanup_failures() {
    let outcome = DisposeOutcome { failures: vec!["ssh: 断开失败".into()], timed_out: false, owners: Vec::new() };
    let decision = commit_decision(false, Some(outcome));
    assert!(decision.proceed);
    assert!(!decision.forced);
    assert_eq!(decision.failures, vec!["ssh: 断开失败".to_string()]);
    let exit = commit_decision(true, None);
    assert!(exit.proceed && exit.forced && exit.failures.is_empty());
    let forced = force_exit_decision();
    assert!(forced.proceed && forced.forced && forced.blockers.is_empty());
}
