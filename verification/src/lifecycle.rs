//! Close coordination: one entry point, split into a prepare phase (ask, may be
//! refused) and a dispose phase (clean up, bounded in time).

use vstd::prelude::*;

use crate::text::{concat3, decimal, decimal_spec, owned, str_eq, views};

verus! {

/// Why the application (or a tool tab) is being closed.
#[derive(Clone, Copy, Debug, PartialEq, Eq)]
pub enum CloseReason {
    /// Closing a single tool tab.
    Tab,
    /// Exiting the application.
    Exit,
    /// Restarting the application.
    Restart,
    /// Exiting to install an update.
    Update,
    /// Switching the data space.
    SpaceSwitch,
}

/// The reason a stable code names, if any.
pub open spec fn parse_reason_code(code: Seq<char>) -> Option<CloseReason> {
    if code == "tab"@ {
        Some(CloseReason::Tab)
    } else if code == "exit"@ {
        Some(CloseReason::Exit)
    } else if code == "restart"@ {
        Some(CloseReason::Restart)
    } else if code == "update"@ {
        Some(CloseReason::Update)
    } else if code == "space-switch"@ {
        Some(CloseReason::SpaceSwitch)
    } else {
        None
    }
}

/// The stable code of each reason.
pub open spec fn reason_code(reason: CloseReason) -> Seq<char> {
    match reason {
        CloseReason::Tab => "tab"@,
        CloseReason::Exit => "exit"@,
        CloseReason::Restart => "restart"@,
        CloseReason::Update => "update"@,
        CloseReason::SpaceSwitch => "space-switch"@,
    }
}

impl CloseReason {
    /// Stable string of the reason (used in logs and by the front end).
    pub fn code(self) -> (r: &'static str)
        ensures
            r@ == reason_code(self),
    {
        match self {
            CloseReason::Tab => "tab",
            CloseReason::Exit => "exit",
            CloseReason::Restart => "restart",
            CloseReason::Update => "update",
            CloseReason::SpaceSwitch => "space-switch",
        }
    }

    /// Parses a stable string; unknown codes give `None` (no default is guessed).
    pub fn from_code(code: &str) -> (r: Option<CloseReason>)
        ensures
            r == parse_reason_code(code@),
    {
        proof {
            reveal_strlit("tab");
            reveal_strlit("exit");
            reveal_strlit("restart");
            reveal_strlit("update");
            reveal_strlit("space-switch");
        }
        if str_eq(code, "tab") {
            Some(CloseReason::Tab)
        } else if str_eq(code, "exit") {
            Some(CloseReason::Exit)
        } else if str_eq(code, "restart") {
            Some(CloseReason::Restart)
        } else if str_eq(code, "update") {
            Some(CloseReason::Update)
        } else if str_eq(code, "space-switch") {
            Some(CloseReason::SpaceSwitch)
        } else {
            None
        }
    }
}

/// Parsing the code of a reason gives the reason back; no other code parses to it.
pub proof fn close_reason_code_roundtrip(reason: CloseReason)
    ensures
        parse_reason_code(reason_code(reason)) == Some(reason),
        forall|code: Seq<char>| parse_reason_code(code) == Some(reason) ==> code == reason_code(reason),
{
    reveal_strlit("tab");
    reveal_strlit("exit");
    reveal_strlit("restart");
    reveal_strlit("update");
    reveal_strlit("space-switch");
    // The five codes have pairwise different lengths.
    assert("tab"@.len() == 3 && "exit"@.len() == 4 && "restart"@.len() == 7);
    assert("update"@.len() == 6 && "space-switch"@.len() == 12);
    match reason {
        CloseReason::Tab => {},
        CloseReason::Exit => {},
        CloseReason::Restart => {},
        CloseReason::Update => {},
        CloseReason::SpaceSwitch => {},
    }
}

/// In which closes a module is asked and cleaned up.
#[derive(Clone, Copy, Debug, PartialEq, Eq)]
pub struct CloseScopes {
    /// Takes part when its tool's tab closes (its `tool` must match too).
    pub tab: bool,
    /// Takes part in exit / restart / update / space switch.
    pub exit: bool,
}

impl CloseScopes {
    /// Only on application exit (tab closes never touch it).
    pub fn exit_only() -> (r: CloseScopes)
        ensures
            r == (CloseScopes { tab: false, exit: true }),
    {
        CloseScopes { tab: false, exit: true }
    }

    /// On tab close and on application exit.
    pub fn tab_and_exit() -> (r: CloseScopes)
        ensures
            r == (CloseScopes { tab: true, exit: true }),
    {
        CloseScopes { tab: true, exit: true }
    }
}

/// Registration of a module's close hooks; the hooks themselves (function
/// values) are kept by the caller next to this declaration.
#[derive(Debug, PartialEq, Eq)]
pub struct ModuleLifecycle {
    /// Owner id (same as the IPC owner).
    pub owner: String,
    /// Tool the module's resources belong to (tab closes select by it).
    pub tool: Option<String>,
    /// Closes it takes part in.
    pub scopes: CloseScopes,
    /// A prepare hook is registered.
    pub has_prepare: bool,
    /// A dispose hook is registered.
    pub has_dispose: bool,
}

impl ModuleLifecycle {
    /// Module cleaned up only on application exit.
    pub fn exit_only(owner: &str) -> (r: ModuleLifecycle)
        ensures
            r.owner@ == owner@,
            r.tool is None,
            r.scopes == CloseScopes::exit_only_spec(),
            !r.has_prepare,
            !r.has_dispose,
    {
        ModuleLifecycle { owner: owned(owner), tool: None, scopes: CloseScopes::exit_only(), has_prepare: false, has_dispose: false }
    }

    /// Module whose resources belong to `tool`.
    pub fn for_tool(owner: &str, tool: &str) -> (r: ModuleLifecycle)
        ensures
            r.owner@ == owner@,
            r.tool matches Some(t) && t@ == tool@,
            r.scopes == CloseScopes::exit_only_spec(),
            !r.has_prepare,
            !r.has_dispose,
    {
        ModuleLifecycle {
            owner: owned(owner),
            tool: Some(owned(tool)),
            scopes: CloseScopes::exit_only(),
            has_prepare: false,
            has_dispose: false,
        }
    }

    /// Declares a prepare hook.
    pub fn with_prepare(self) -> (r: ModuleLifecycle)
        ensures
            r == (ModuleLifecycle { has_prepare: true, ..self }),
    {
        ModuleLifecycle { has_prepare: true, ..self }
    }

    /// Also takes part when its tool's tab closes.
    pub fn with_tab_scope(self) -> (r: ModuleLifecycle)
        ensures
            r == (ModuleLifecycle { scopes: CloseScopes { tab: true, exit: true }, ..self }),
    {
        ModuleLifecycle { scopes: CloseScopes::tab_and_exit(), ..self }
    }

    /// Declares a dispose hook.
    pub fn with_dispose(self) -> (r: ModuleLifecycle)
        ensures
            r == (ModuleLifecycle { has_dispose: true, ..self }),
    {
        ModuleLifecycle { has_dispose: true, ..self }
    }
}

impl CloseScopes {
    /// The exit-only scopes.
    pub open spec fn exit_only_spec() -> CloseScopes {
        CloseScopes { tab: false, exit: true }
    }
}

/// Whether a close for `reason` (of tool `tool`) asks / cleans this module:
/// a tab close picks tab-scoped modules of that very tool (none when no tool
/// is given); every other reason picks exit-scoped modules.
pub open spec fn selected_spec(hook: ModuleLifecycle, reason: CloseReason, tool: Option<Seq<char>>) -> bool {
    match reason {
        CloseReason::Tab => hook.scopes.tab && hook.tool is Some && tool is Some && hook.tool.unwrap()@
            == tool.unwrap(),
        _ => hook.scopes.exit,
    }
}

/// Whether a close for `reason` (of tool `tool`) asks / cleans this module.
pub fn selected(hook: &ModuleLifecycle, reason: CloseReason, tool: Option<&str>) -> (r: bool)
    ensures
        r == selected_spec(*hook, reason, opt_view(tool)),
{
    match reason {
        CloseReason::Tab => match (&hook.tool, tool) {
            (Some(owner_tool), Some(target)) => hook.scopes.tab && str_eq(owner_tool.as_str(), target),
            _ => false,
        },
        _ => hook.scopes.exit,
    }
}

/// A tab close never selects a module that is not tab-scoped.
pub proof fn tab_close_spares_exit_only_modules(hook: ModuleLifecycle, tool: Option<Seq<char>>)
    requires
        !hook.scopes.tab,
    ensures
        !selected_spec(hook, CloseReason::Tab, tool),
{
}

/// Registered module declarations, one per owner, in registration order.
pub struct HookTable {
    /// Declarations.
    entries: Vec<ModuleLifecycle>,
}

/// Owners of a sequence of declarations.
pub open spec fn owners_of(entries: Seq<ModuleLifecycle>) -> Seq<Seq<char>> {
    entries.map_values(|e: ModuleLifecycle| e.owner@)
}

impl HookTable {
    /// The declarations in registration order.
    pub closed spec fn view(&self) -> Seq<ModuleLifecycle> {
        self.entries@
    }

    /// Owners are unique.
    pub open spec fn wf(&self) -> bool {
        owners_of(self.view()).no_duplicates()
    }

    /// Empty table.
    pub fn new() -> (r: HookTable)
        ensures
            r.view().len() == 0,
            r.wf(),
    {
        let r = HookTable { entries: Vec::new() };
        assert(owners_of(r.view()) =~= Seq::<Seq<char>>::empty());
        r
    }

    /// Registers a declaration; one with the same owner is replaced in place.
    pub fn register(&mut self, spec: ModuleLifecycle)
        requires
            old(self).wf(),
        ensures
            final(self).wf(),
            (exists|i: int| 0 <= i < old(self).view().len() && old(self).view()[i].owner@ == spec.owner@)
                ==> (exists|i: int| 0 <= i < old(self).view().len() && old(self).view()[i].owner@ == spec.owner@
                    && final(self).view() == old(self).view().update(i, spec)),
            (forall|i: int| 0 <= i < old(self).view().len() ==> old(self).view()[i].owner@ != spec.owner@)
                ==> final(self).view() == old(self).view().push(spec),
    {
        let ghost before = self.entries@;
        let mut i: usize = 0;
        while i < self.entries.len()
            invariant
                i <= self.entries@.len(),
                self.entries@ == before,
                before == old(self).view(),
                owners_of(before).no_duplicates(),
                forall|k: int| 0 <= k < i ==> before[k].owner@ != spec.owner@,
            decreases self.entries@.len() - i,
        {
            if str_eq(self.entries[i].owner.as_str(), spec.owner.as_str()) {
                let ghost at = i as int;
                self.entries.set(i, spec);
                proof {
                    assert(self.entries@ == before.update(at, spec));
                    assert(owners_of(self.entries@) =~= owners_of(before));
                    assert(before[at].owner@ == spec.owner@);
                }
                return;
            }
            i = i + 1;
        }
        self.entries.push(spec);
        proof {
            let o = owners_of(self.entries@);
            let ob = owners_of(before);
            assert(o =~= ob.push(spec.owner@));
            assert forall|a: int, b: int| 0 <= a < o.len() && 0 <= b < o.len() && a != b implies o[a] != o[b] by {
                if a < before.len() && b < before.len() {
                    assert(o[a] == ob[a]);
                    assert(o[b] == ob[b]);
                } else if a < before.len() {
                    assert(o[a] == before[a].owner@);
                } else {
                    assert(o[b] == before[b].owner@);
                }
            }
        }
    }

    /// Owners of the registered declarations, in registration order.
    pub fn registered_owners(&self) -> (r: Vec<String>)
        ensures
            views(r@) == owners_of(self.view()),
    {
        let mut out: Vec<String> = Vec::new();
        let mut i: usize = 0;
        while i < self.entries.len()
            invariant
                i <= self.entries@.len(),
                views(out@) == owners_of(self.entries@.subrange(0, i as int)),
            decreases self.entries@.len() - i,
        {
            let ghost prev = out@;
            out.push(self.entries[i].owner.clone());
            proof {
                assert(out@ == prev.push(out@.last()));
                assert(views(out@) =~= views(prev).push(self.entries@[i as int].owner@));
                assert(owners_of(self.entries@.subrange(0, i + 1)) =~= owners_of(self.entries@.subrange(0, i as int)).push(
                    self.entries@[i as int].owner@));
            }
            i = i + 1;
        }
        assert(self.entries@.subrange(0, self.entries@.len() as int) =~= self.entries@);
        out
    }

    /// Forgets every declaration (test isolation).
    pub fn clear(&mut self)
        ensures
            final(self).view().len() == 0,
            final(self).wf(),
    {
        self.entries = Vec::new();
        assert(owners_of(self.view()) =~= Seq::<Seq<char>>::empty());
    }

    /// Owners to ask in the prepare phase, in registration order.
    pub fn prepare_plan(&self, reason: CloseReason, tool: Option<&str>) -> (r: Vec<String>)
        ensures
            views(r@) == owners_of(planned(self.view(), reason, opt_view(tool), false)),
    {
        self.plan(reason, tool, false)
    }

    /// Owners to clean up in the dispose phase (selected and with a dispose hook).
    pub fn dispose_plan(&self, reason: CloseReason, tool: Option<&str>) -> (r: Vec<String>)
        ensures
            views(r@) == owners_of(planned(self.view(), reason, opt_view(tool), true)),
    {
        self.plan(reason, tool, true)
    }

    /// Owners of the selected declarations (optionally only those with a dispose hook).
    fn plan(&self, reason: CloseReason, tool: Option<&str>, need_dispose: bool) -> (r: Vec<String>)
        ensures
            views(r@) == owners_of(planned(self.view(), reason, opt_view(tool), need_dispose)),
    {
        let ghost t = opt_view(tool);
        let mut out: Vec<String> = Vec::new();
        let mut i: usize = 0;
        while i < self.entries.len()
            invariant
                i <= self.entries@.len(),
                t == opt_view(tool),
                views(out@) == owners_of(planned(self.entries@.subrange(0, i as int), reason, t, need_dispose)),
            decreases self.entries@.len() - i,
        {
            let ghost sub = self.entries@.subrange(0, i + 1);
            proof {
                assert(sub.drop_last() =~= self.entries@.subrange(0, i as int));
            }
            let ghost prev = out@;
            let hook = &self.entries[i];
            if selected(hook, reason, tool) && (!need_dispose || hook.has_dispose) {
                out.push(hook.owner.clone());
                proof {
                    assert(out@ == prev.push(out@.last()));
                    assert(views(out@) =~= views(prev).push(hook.owner@));
                    assert(owners_of(planned(sub, reason, t, need_dispose)) =~= owners_of(
                        planned(self.entries@.subrange(0, i as int), reason, t, need_dispose)).push(hook.owner@));
                }
            }
            i = i + 1;
        }
        assert(self.entries@.subrange(0, self.entries@.len() as int) =~= self.entries@);
        out
    }
}

/// View of an optional string argument.
pub open spec fn opt_view(tool: Option<&str>) -> Option<Seq<char>> {
    match tool {
        Some(t) => Some(t@),
        None => None,
    }
}

/// The declarations a close for `reason` (of tool `tool`) plans, in
/// registration order; with `need_dispose`, only those with a dispose hook.
pub open spec fn planned(
    entries: Seq<ModuleLifecycle>,
    reason: CloseReason,
    tool: Option<Seq<char>>,
    need_dispose: bool,
) -> Seq<ModuleLifecycle>
    decreases entries.len(),
{
    if entries.len() == 0 {
        Seq::empty()
    } else {
        let prev = planned(entries.drop_last(), reason, tool, need_dispose);
        let e = entries.last();
        if selected_spec(e, reason, tool) && (need_dispose ==> e.has_dispose) {
            prev.push(e)
        } else {
            prev
        }
    }
}

/// Result of the prepare phase.
#[derive(Debug, PartialEq, Eq)]
pub struct PrepareOutcome {
    /// Closing may go on (no blocker).
    pub proceed: bool,
    /// Refusals (`owner: reason`, in registration order).
    pub blockers: Vec<String>,
}

/// What a prepare hook answered.
#[derive(Debug, PartialEq, Eq)]
pub enum PrepareAnswer {
    /// The module allows the close.
    Allowed,
    /// The module refuses, with a reason for the user.
    Refused(String),
    /// The hook panicked (caught; counted as a refusal).
    Panicked,
}

/// Blocker line of an answer, if it blocks.
pub open spec fn blocker_of(owner: Seq<char>, answer: PrepareAnswer) -> Option<Seq<char>> {
    match answer {
        PrepareAnswer::Allowed => None,
        PrepareAnswer::Refused(reason) => Some(owner + ": "@ + reason@),
        PrepareAnswer::Panicked => Some(owner + ": 关闭前询问异常（已兜住，按拒绝处理）"@),
    }
}

/// Blocker lines of a sequence of answers, in order.
pub open spec fn blockers_of(answers: Seq<(String, PrepareAnswer)>) -> Seq<Seq<char>>
    decreases answers.len(),
{
    if answers.len() == 0 {
        Seq::empty()
    } else {
        let prev = blockers_of(answers.drop_last());
        match blocker_of(answers.last().0@, answers.last().1) {
            Some(b) => prev.push(b),
            None => prev,
        }
    }
}

/// The answer refuses the close (a refusal or a caught panic).
pub open spec fn blocks_close(a: (String, PrepareAnswer)) -> bool {
    !(a.1 is Allowed)
}

/// Every refusal is reported, in answer order: the blocker lines are, one
/// for one, the lines of the answers that are not `Allowed`, so there are
/// exactly as many as such answers (and none when every module allows).
pub proof fn every_refusal_is_reported(answers: Seq<(String, PrepareAnswer)>)
    ensures
        blockers_of(answers) == answers.filter(|a: (String, PrepareAnswer)| blocks_close(a)).map_values(
            |a: (String, PrepareAnswer)| blocker_of(a.0@, a.1)->0,
        ),
        blockers_of(answers).len() == answers.filter(|a: (String, PrepareAnswer)| blocks_close(a)).len(),
    decreases answers.len(),
{
    reveal_with_fuel(Seq::<_>::filter, 1);
    if answers.len() > 0 {
        every_refusal_is_reported(answers.drop_last());
        let f = |a: (String, PrepareAnswer)| blocks_close(a);
        let g = |a: (String, PrepareAnswer)| blocker_of(a.0@, a.1)->0;
        if blocks_close(answers.last()) {
            assert(answers.filter(f) == answers.drop_last().filter(f).push(answers.last()));
            assert(answers.filter(f).map_values(g) =~= answers.drop_last().filter(f).map_values(g).push(g(answers.last())));
        } else {
            assert(answers.filter(f) == answers.drop_last().filter(f));
        }
    }
}

/// Gathers the prepare answers of the planned modules into the outcome.
pub fn collect_prepare(answers: Vec<(String, PrepareAnswer)>) -> (r: PrepareOutcome)
    ensures
        views(r.blockers@) == blockers_of(answers@),
        r.proceed == (r.blockers@.len() == 0),
{
    let mut blockers: Vec<String> = Vec::new();
    let mut i: usize = 0;
    while i < answers.len()
        invariant
            i <= answers@.len(),
            views(blockers@) == blockers_of(answers@.subrange(0, i as int)),
        decreases answers@.len() - i,
    {
        let ghost before = blockers@;
        proof {
            assert(answers@.subrange(0, i + 1).drop_last() =~= answers@.subrange(0, i as int));
        }
        let (owner, answer) = &answers[i];
        match answer {
            PrepareAnswer::Allowed => {},
            PrepareAnswer::Refused(reason) => {
                let mut line = owner.clone();
                line.append(": ");
                line.append(reason.as_str());
                blockers.push(line);
                assert(views(blockers@) =~= views(before).push(line@));
            },
            PrepareAnswer::Panicked => {
                let mut line = owner.clone();
                line.append(": 关闭前询问异常（已兜住，按拒绝处理）");
                blockers.push(line);
                assert(views(blockers@) =~= views(before).push(line@));
            },
        }
        i = i + 1;
    }
    assert(answers@.subrange(0, answers@.len() as int) =~= answers@);
    let proceed = blockers.len() == 0;
    PrepareOutcome { proceed, blockers }
}

/// The single close decision after merging front-end and back-end blockers.
#[derive(Debug, PartialEq, Eq)]
pub struct CloseDecision {
    /// Closing is allowed (`false`: someone refused, nothing was cleaned).
    pub proceed: bool,
    /// The user explicitly forced the close.
    pub forced: bool,
    /// Refusals (empty when `proceed` without force).
    pub blockers: Vec<String>,
    /// Cleanup failures (commit phase).
    pub failures: Vec<String>,
}

/// Merges front-end and back-end blockers into one decision. Either side
/// refusing stops the close; a forced close always goes on but keeps every
/// reason for diagnostics.
pub fn compose_decision(forced: bool, frontend_blockers: Vec<String>, outcome: PrepareOutcome) -> (r: CloseDecision)
    ensures
        r.failures@.len() == 0,
        forced ==> r.proceed && r.forced && r.blockers@ == frontend_blockers@ + outcome.blockers@,
        !forced ==> !r.forced && r.proceed == (outcome.proceed && frontend_blockers@.len() == 0
            && outcome.blockers@.len() == 0),
        !forced && r.proceed ==> r.blockers@.len() == 0,
        !forced && !r.proceed ==> r.blockers@ == frontend_blockers@ + outcome.blockers@,
{
    let mut blockers = frontend_blockers;
    let mut extra = outcome.blockers;
    let ghost a = blockers@;
    let ghost b = extra@;
    blockers.append(&mut extra);
    assert(blockers@ == a + b);
    if forced {
        return CloseDecision { proceed: true, forced: true, blockers, failures: Vec::new() };
    }
    let proceed = outcome.proceed && blockers.len() == 0;
    CloseDecision {
        proceed,
        forced: false,
        blockers: if proceed { Vec::new() } else { blockers },
        failures: Vec::new(),
    }
}

/// Result of the dispose phase.
#[derive(Debug, PartialEq, Eq)]
pub struct DisposeOutcome {
    /// Cleanup failures (timeouts and hook panics included); empty = all done.
    pub failures: Vec<String>,
    /// Stopped by the overall timeout.
    pub timed_out: bool,
    /// Modules whose cleanup ran to completion.
    pub owners: Vec<String>,
}

/// What a dispose hook reported.
#[derive(Debug, PartialEq, Eq)]
pub enum DisposeAnswer {
    /// Completed, with failure descriptions (empty = clean).
    Completed(Vec<String>),
    /// The hook panicked (caught; counted as a failure).
    Panicked,
}

/// Failure lines of one dispose answer.
pub open spec fn failures_of_answer(owner: Seq<char>, answer: DisposeAnswer) -> Seq<Seq<char>> {
    match answer {
        DisposeAnswer::Completed(list) => views(list@).map_values(|m: Seq<char>| owner + ": "@ + m),
        DisposeAnswer::Panicked => seq![owner + ": 清理钩子异常（已兜住，计入失败）"@],
    }
}

/// Failure lines of a sequence of dispose answers, in order.
pub open spec fn failures_of(answers: Seq<(String, DisposeAnswer)>) -> Seq<Seq<char>>
    decreases answers.len(),
{
    if answers.len() == 0 {
        Seq::empty()
    } else {
        failures_of(answers.drop_last()) + failures_of_answer(answers.last().0@, answers.last().1)
    }
}

/// Owners whose dispose hook completed, in order.
pub open spec fn completed_of(answers: Seq<(String, DisposeAnswer)>) -> Seq<Seq<char>>
    decreases answers.len(),
{
    if answers.len() == 0 {
        Seq::empty()
    } else {
        let prev = completed_of(answers.drop_last());
        match answers.last().1 {
            DisposeAnswer::Completed(_) => prev.push(answers.last().0@),
            DisposeAnswer::Panicked => prev,
        }
    }
}

/// Gathers the dispose answers (all planned hooks ran within the time budget).
pub fn collect_dispose(answers: Vec<(String, DisposeAnswer)>) -> (r: DisposeOutcome)
    ensures
        views(r.failures@) == failures_of(answers@),
        views(r.owners@) == completed_of(answers@),
        !r.timed_out,
{
    let mut failures: Vec<String> = Vec::new();
    let mut owners: Vec<String> = Vec::new();
    let mut i: usize = 0;
    while i < answers.len()
        invariant
            i <= answers@.len(),
            views(failures@) == failures_of(answers@.subrange(0, i as int)),
            views(owners@) == completed_of(answers@.subrange(0, i as int)),
        decreases answers@.len() - i,
    {
        proof {
            assert(answers@.subrange(0, i + 1).drop_last() =~= answers@.subrange(0, i as int));
        }
        let ghost before_f = failures@;
        let ghost before_o = owners@;
        let (owner, answer) = &answers[i];
        match answer {
            DisposeAnswer::Completed(list) => {
                owners.push(owner.clone());
                assert(views(owners@) =~= views(before_o).push(owner@));
                let mut j: usize = 0;
                while j < list.len()
                    invariant
                        j <= list@.len(),
                        views(failures@) == views(before_f) + views(list@.subrange(0, j as int)).map_values(
                            |m: Seq<char>| owner@ + ": "@ + m),
                    decreases list@.len() - j,
                {
                    let ghost mid = failures@;
                    let mut line = owner.clone();
                    line.append(": ");
                    line.append(list[j].as_str());
                    failures.push(line);
                    proof {
                        assert(views(list@.subrange(0, j + 1)) =~= views(list@.subrange(0, j as int)).push(list@[j as int]@));
                        assert(views(failures@) =~= views(mid).push(line@));
                        assert(views(failures@) =~= views(before_f) + views(list@.subrange(0, j + 1)).map_values(
                            |m: Seq<char>| owner@ + ": "@ + m));
                    }
                    j = j + 1;
                }
                assert(list@.subrange(0, list@.len() as int) =~= list@);
            },
            DisposeAnswer::Panicked => {
                let mut line = owner.clone();
                line.append(": 清理钩子异常（已兜住，计入失败）");
                failures.push(line);
                assert(views(failures@) =~= views(before_f) + seq![line@]);
            },
        }
        i = i + 1;
    }
    assert(answers@.subrange(0, answers@.len() as int) =~= answers@);
    DisposeOutcome { failures, timed_out: false, owners }
}

/// Outcome when the cleanup did not finish within `timeout_ms`.
pub fn dispose_timed_out(timeout_ms: u64) -> (r: DisposeOutcome)
    ensures
        r.timed_out,
        r.owners@.len() == 0,
        views(r.failures@) == seq!["关闭清理总超时（"@ + decimal_spec(timeout_ms as nat) + " ms）：未完成的模块按清理失败处理"@],
{
    let n = decimal(timeout_ms);
    let line = concat3("关闭清理总超时（", n.as_str(), " ms）：未完成的模块按清理失败处理");
    let mut failures: Vec<String> = Vec::new();
    failures.push(line);
    assert(views(failures@) =~= seq![line@]);
    DisposeOutcome { failures, timed_out: true, owners: Vec::new() }
}

/// Overall dispose budget in milliseconds.
pub const DISPOSE_TIMEOUT_MS: u64 = 5000;

/// Process-level exit flags: the user's explicit force-exit request.
pub struct ExitState {
    /// Set only by the user's explicit force-exit action.
    force_exit: bool,
}

impl ExitState {
    /// Whether a force exit was requested.
    pub closed spec fn forced(&self) -> bool {
        self.force_exit
    }

    /// No force exit requested.
    pub fn new() -> (r: ExitState)
        ensures
            !r.forced(),
    {
        ExitState { force_exit: false }
    }

    /// Records the user's force-exit request (idempotent).
    pub fn set_force_exit(&mut self)
        ensures
            final(self).forced(),
    {
        self.force_exit = true;
    }

    /// Whether the user asked to force the exit.
    pub fn force_requested(&self) -> (r: bool)
        ensures
            r == self.forced(),
    {
        self.force_exit
    }

    /// Clears the request (test isolation).
    pub fn clear_force_for_test(&mut self)
        ensures
            !final(self).forced(),
    {
        self.force_exit = false;
    }
}

} // verus!
