//! The close negotiation surface shared by tab closes and exits: request
//! parsing (strict: unknown reasons and tab closes without a tool are errors)
//! and the decisions taken around the two lifecycle phases.

use vstd::prelude::*;

use crate::lifecycle::{parse_reason_code, CloseDecision, CloseReason, DisposeOutcome};
use crate::text::{concat3, owned, trim, trim_spec};

verus! {

/// Event the front end listens to when an exit is refused.
pub const EXIT_VETO_EVENT: &'static str = "app://exit-vetoed";

/// A close request sent by a page.
#[derive(Debug)]
pub struct CloseRequest {
    /// Reason code (`tab` / `exit` / `restart` / `update` / `space-switch`); absent means `exit`.
    pub reason: Option<String>,
    /// Tool id of a tab close (required for `tab`, ignored otherwise).
    pub tool_id: Option<String>,
    /// Refusals reported by the page's owners.
    pub blockers: Vec<String>,
    /// The user already confirmed discarding (skip the refusals).
    pub force: bool,
}

/// View of an optional owned string.
pub open spec fn opt_string_view(s: Option<String>) -> Option<Seq<char>> {
    match s {
        Some(t) => Some(t@),
        None => None,
    }
}

/// Message for a reason code that names no reason.
pub open spec fn unknown_reason_message(code: Seq<char>) -> Seq<char> {
    "未知的关闭原因 `"@ + code + "`（支持 exit/restart/update/tab/space-switch）"@
}

/// Message for a tab close that names no tool.
pub open spec fn missing_tool_message() -> Seq<char> {
    "页签关闭必须带 toolId（不猜要关哪个工具的模块）"@
}

/// The reason a request names: absent or empty means exit; an unknown code is an error.
pub open spec fn parse_reason_spec(reason: Option<Seq<char>>) -> Result<CloseReason, Seq<char>> {
    match reason {
        None => Ok(CloseReason::Exit),
        Some(code) => if code.len() == 0 {
            Ok(CloseReason::Exit)
        } else {
            match parse_reason_code(code) {
                Some(r) => Ok(r),
                None => Err(unknown_reason_message(code)),
            }
        },
    }
}

/// The tool a request names: its trimmed tool id, unless that is blank.
pub open spec fn request_tool(tool_id: Option<Seq<char>>) -> Option<Seq<char>> {
    match tool_id {
        Some(t) => if trim_spec(t).len() > 0 {
            Some(trim_spec(t))
        } else {
            None
        },
        None => None,
    }
}

/// Parses a close reason; unknown codes are refused rather than read as a default.
pub fn parse_reason(reason: Option<&str>) -> (r: Result<CloseReason, String>)
    ensures
        match parse_reason_spec(match reason { Some(c) => Some(c@), None => None }) {
            Ok(expected) => r == Ok::<CloseReason, String>(expected),
            Err(message) => r is Err && r->Err_0@ == message,
        },
{
    match reason {
        None => Ok(CloseReason::Exit),
        Some(code) => {
            if code.unicode_len() == 0 {
                return Ok(CloseReason::Exit);
            }
            match CloseReason::from_code(code) {
                Some(r) => Ok(r),
                None => Err(concat3("未知的关闭原因 `", code, "`（支持 exit/restart/update/tab/space-switch）")),
            }
        },
    }
}

/// Parses a close request into its reason and (trimmed) tool id. A tab
/// close without a tool is refused: asking every module instead is exactly
/// how a tab close would clean up global resources.
pub fn parse_request(request: &CloseRequest) -> (r: Result<(CloseReason, Option<String>), String>)
    ensures
        match parse_reason_spec(opt_string_view(request.reason)) {
            Err(message) => r is Err && r->Err_0@ == message,
            Ok(reason) => if reason == CloseReason::Tab && request_tool(opt_string_view(request.tool_id)) is None {
                r is Err && r->Err_0@ == missing_tool_message()
            } else {
                r is Ok && r->Ok_0.0 == reason && opt_string_view(r->Ok_0.1) == request_tool(
                    opt_string_view(request.tool_id),
                )
            },
        },
{
    let parsed = match &request.reason {
        Some(code) => parse_reason(Some(code.as_str())),
        None => parse_reason(None),
    };
    let reason = match parsed {
        Ok(reason) => reason,
        Err(message) => return Err(message),
    };
    let tool: Option<String> = match &request.tool_id {
        Some(raw) => {
            let trimmed = trim(raw.as_str());
            if trimmed.unicode_len() == 0 {
                None
            } else {
                Some(owned(trimmed))
            }
        },
        None => None,
    };
    match reason {
        CloseReason::Tab => {
            if tool.is_none() {
                return Err(owned("页签关闭必须带 toolId（不猜要关哪个工具的模块）"));
            }
        },
        _ => {},
    }
    Ok((reason, tool))
}

/// Whether a decision must be surfaced to the user (main window raised and
/// the veto event sent): refused exit-family closes only, since a tab close
/// is confirmed by its own page.
pub fn surfaces_veto(decision: &CloseDecision, reason: CloseReason) -> (r: bool)
    ensures
        r == (!decision.proceed && reason != CloseReason::Tab),
{
    match reason {
        CloseReason::Tab => false,
        _ => !decision.proceed,
    }
}

/// Decision reported by the commit phase: it always proceeds, keeps the
/// force flag and reports the failures of the tab cleanup, if one ran
/// (exit-family cleanup runs once, at process exit).
pub fn commit_decision(forced: bool, disposed: Option<DisposeOutcome>) -> (r: CloseDecision)
    ensures
        r.proceed,
        r.forced == forced,
        r.blockers@.len() == 0,
        match disposed {
            Some(outcome) => r.failures@ == outcome.failures@,
            None => r.failures@.len() == 0,
        },
{
    let failures = match disposed {
        Some(outcome) => outcome.failures,
        None => Vec::new(),
    };
    CloseDecision { proceed: true, forced, blockers: Vec::new(), failures }
}

/// Decision of an explicit force exit: proceeds, forced, nothing to report.
pub fn force_exit_decision() -> (r: CloseDecision)
    ensures
        r.proceed,
        r.forced,
        r.blockers@.len() == 0,
        r.failures@.len() == 0,
{
    CloseDecision { proceed: true, forced: true, blockers: Vec::new(), failures: Vec::new() }
}

} // verus!
