//! Import and export sessions: the decrypted manifest of an `inspect` and
//! the plan of a `plan` stay in the process, under an id, for a bounded
//! time. The front end only holds the id. Every write first drops the
//! expired entries; a read of an unknown or expired id is refused.
//!
//! Time is the caller's: every operation takes `now`, in milliseconds on a
//! monotonic clock.

use vstd::prelude::*;

use crate::data_transfer::import_plan::ImportPlan;
use crate::data_transfer::manifest::{new_uuid_string, PackageManifest};
use crate::text::{concat2, owned, str_eq};

verus! {

/// How long a session lives, in milliseconds (thirty minutes).
pub const SESSION_TTL: u64 = 1800000;

/// An entry created at `created` is still alive at `now` (a clock that went
/// back counts as no time passed).
pub open spec fn alive(created: u64, now: u64) -> bool {
    (now as int) - (created as int) < SESSION_TTL as int
}

/// What a table holds under `id`: its last entry, with its creation time.
pub open spec fn entry_of<T>(s: Seq<(String, T, u64)>, id: Seq<char>) -> Option<(T, u64)>
    decreases s.len(),
{
    if s.len() == 0 {
        None
    } else if s.last().0@ == id {
        Some((s.last().1, s.last().2))
    } else {
        entry_of(s.drop_last(), id)
    }
}

/// What survives a prune at `now`.
pub open spec fn kept<T>(e: Option<(T, u64)>, now: u64) -> Option<(T, u64)> {
    match e {
        Some((v, c)) => if alive(c, now) {
            Some((v, c))
        } else {
            None
        },
        None => None,
    }
}

/// No two entries share an id.
pub open spec fn distinct_ids<T>(s: Seq<(String, T, u64)>) -> bool {
    forall|i: int, j: int| 0 <= i < j < s.len() ==> (#[trigger] s[i]).0@ != (#[trigger] s[j]).0@
}

/// Nothing is held under an id exactly when no entry has it.
proof fn lemma_entry_none<T>(s: Seq<(String, T, u64)>, id: Seq<char>)
    ensures
        entry_of(s, id) is None <==> forall|i: int| 0 <= i < s.len() ==> (#[trigger] s[i]).0@ != id,
    decreases s.len(),
{
    if s.len() > 0 {
        lemma_entry_none(s.drop_last(), id);
        if entry_of(s, id) is None {
            assert forall|i: int| 0 <= i < s.len() implies (#[trigger] s[i]).0@ != id by {
                if i < s.len() - 1 {
                    assert(s.drop_last()[i] == s[i]);
                }
            }
        } else if s.last().0@ != id {
            let i = choose|i: int| 0 <= i < s.len() - 1 && (#[trigger] s.drop_last()[i]).0@ == id;
            assert(s[i] == s.drop_last()[i]);
        }
    }
}

/// Entries by id, each with its creation time; no two share an id.
pub struct SessionTable<T> {
    /// Id, value, creation time.
    entries: Vec<(String, T, u64)>,
}

impl<T> SessionTable<T> {
    /// Ids are unique.
    #[verifier::type_invariant]
    spec fn unique_ids(&self) -> bool {
        distinct_ids(self.entries@)
    }

    /// The entries in order.
    pub closed spec fn view(&self) -> Seq<(String, T, u64)> {
        self.entries@
    }

    /// What the table holds under `id`.
    pub open spec fn get_spec(&self, id: Seq<char>) -> Option<(T, u64)> {
        entry_of(self.view(), id)
    }

    /// An empty table.
    pub fn new() -> (r: SessionTable<T>)
        ensures
            forall|id: Seq<char>| #[trigger] r.get_spec(id) is None,
    {
        SessionTable { entries: Vec::new() }
    }

    /// Drops the entries that expired at `now`.
    pub fn prune(&mut self, now: u64)
        ensures
            forall|id: Seq<char>| #[trigger] final(self).get_spec(id) == kept(old(self).get_spec(id), now),
    {
        proof {
            use_type_invariant(&*self);
        }
        let ghost before = self.entries@;
        let mut rest: Vec<(String, T, u64)> = Vec::new();
        std::mem::swap(&mut rest, &mut self.entries);
        let mut out: Vec<(String, T, u64)> = Vec::new();
        let n = rest.len();
        let mut k: usize = 0;
        assert(before.subrange(0, 0) =~= Seq::<(String, T, u64)>::empty());
        while k < n
            invariant
                n == before.len(),
                k <= n,
                distinct_ids(before),
                distinct_ids(out@),
                rest@ == before.subrange(k as int, n as int),
                forall|j: int, i: int| 0 <= j < out@.len() && k <= i < n ==> (#[trigger] out@[j]).0@ != (#[trigger] before[i]).0@,
                forall|id: Seq<char>| #[trigger] entry_of(out@, id) == kept(entry_of(before.subrange(0, k as int), id), now),
            decreases n - k,
        {
            let ghost o0 = out@;
            let e = rest.remove(0);
            let ghost pre = before.subrange(0, k as int);
            proof {
                assert(before.subrange(0, k + 1).drop_last() =~= pre);
                assert(e == before[k as int]);
                assert forall|i: int| 0 <= i < pre.len() implies (#[trigger] pre[i]).0@ != e.0@ by {
                    assert(pre[i] == before[i]);
                }
                lemma_entry_none(pre, e.0@);
            }
            let (id, value, created) = e;
            if now < created || now - created < SESSION_TTL {
                out.push((id, value, created));
                proof {
                    assert(out@.drop_last() == o0);
                    assert forall|j: int, i: int| 0 <= j < out@.len() && k + 1 <= i < n implies (#[trigger] out@[j]).0@ != (
                    #[trigger] before[i]).0@ by {
                        if j < o0.len() {
                            assert(out@[j] == o0[j]);
                        }
                    }
                    assert forall|a: int, b: int| 0 <= a < b < out@.len() implies (#[trigger] out@[a]).0@ != (
                    #[trigger] out@[b]).0@ by {
                        if b == o0.len() {
                            assert(out@[a] == o0[a]);
                        } else {
                            assert(out@[a] == o0[a] && out@[b] == o0[b]);
                        }
                    }
                }
            }
            proof {
                let next = before.subrange(0, k + 1);
                assert(next.drop_last() == pre);
                assert(next.last() == e);
                assert forall|x: Seq<char>| #[trigger] entry_of(out@, x) == kept(entry_of(next, x), now) by {
                    assert(entry_of(o0, x) == kept(entry_of(pre, x), now));
                }
            }
            k = k + 1;
        }
        assert(before.subrange(0, n as int) =~= before);
        self.entries = out;
    }

    /// Stores `value` under `id` at `now`, after dropping expired entries; an
    /// entry already under `id` is replaced.
    pub fn put(&mut self, id: String, value: T, now: u64)
        ensures
            forall|k: Seq<char>| #[trigger]
                final(self).get_spec(k) == if k == id@ {
                    Some((value, now))
                } else {
                    kept(old(self).get_spec(k), now)
                },
    {
        let ghost s0 = *self;
        let ghost e0 = self.entries@;
        self.prune(now);
        let ghost s1 = *self;
        let ghost e1 = self.entries@;
        assert forall|k: Seq<char>| #[trigger] entry_of(e1, k) == kept(entry_of(e0, k), now) by {
            assert(s1.get_spec(k) == kept(s0.get_spec(k), now));
        }
        self.remove(id.as_str());
        proof {
            use_type_invariant(&*self);
            lemma_entry_none(self.entries@, id@);
        }
        let ghost s2 = *self;
        let ghost mid = self.entries@;
        assert forall|k: Seq<char>| #[trigger] entry_of(mid, k) == if k == id@ { None } else { entry_of(e1, k) } by {
            assert(s2.get_spec(k) == if k == id@ { None } else { s1.get_spec(k) });
        }
        let ghost idv = id@;
        let mut es: Vec<(String, T, u64)> = Vec::new();
        std::mem::swap(&mut es, &mut self.entries);
        es.push((id, value, now));
        proof {
            assert(es@.drop_last() == mid);
            assert(es@.last().0@ == idv);
            assert forall|a: int, b: int| 0 <= a < b < es@.len() implies (#[trigger] es@[a]).0@ != (#[trigger] es@[b]).0@ by {
                if b < mid.len() {
                    assert(es@[a] == mid[a] && es@[b] == mid[b]);
                } else {
                    assert(es@[a] == mid[a]);
                }
            }
            assert forall|k: Seq<char>| #[trigger] entry_of(es@, k) == if k == idv {
                Some((value, now))
            } else {
                kept(entry_of(e0, k), now)
            } by {
                assert(entry_of(mid, k) == if k == idv { None } else { entry_of(e1, k) });
                assert(entry_of(e1, k) == kept(entry_of(e0, k), now));
            }
        }
        self.entries = es;
    }

    /// What is stored under `id`, if it is still alive at `now`.
    pub fn get(&self, id: &str, now: u64) -> (r: Option<&T>)
        ensures
            r matches Some(v) ==> kept(self.get_spec(id@), now) matches Some((w, _)) && *v == w,
            r is None ==> kept(self.get_spec(id@), now) is None,
    {
        let mut k: usize = self.entries.len();
        assert(self.entries@.subrange(0, k as int) =~= self.entries@);
        while k > 0
            invariant
                k <= self.entries@.len(),
                entry_of(self.entries@, id@) == entry_of(self.entries@.subrange(0, k as int), id@),
            decreases k,
        {
            proof {
                assert(self.entries@.subrange(0, k as int).drop_last() =~= self.entries@.subrange(0, k - 1));
            }
            if str_eq(self.entries[k - 1].0.as_str(), id) {
                let created = self.entries[k - 1].2;
                if now < created || now - created < SESSION_TTL {
                    return Some(&self.entries[k - 1].1);
                }
                return None;
            }
            k = k - 1;
        }
        None
    }

    /// Forgets the entry under `id`.
    pub fn remove(&mut self, id: &str)
        ensures
            forall|k: Seq<char>| #[trigger]
                final(self).get_spec(k) == if k == id@ {
                    None
                } else {
                    old(self).get_spec(k)
                },
    {
        proof {
            use_type_invariant(&*self);
        }
        let ghost before = self.entries@;
        let mut rest: Vec<(String, T, u64)> = Vec::new();
        std::mem::swap(&mut rest, &mut self.entries);
        let mut out: Vec<(String, T, u64)> = Vec::new();
        let n = rest.len();
        let mut k: usize = 0;
        assert(before.subrange(0, 0) =~= Seq::<(String, T, u64)>::empty());
        while k < n
            invariant
                n == before.len(),
                k <= n,
                distinct_ids(before),
                distinct_ids(out@),
                forall|j: int, i: int| 0 <= j < out@.len() && k <= i < n ==> (#[trigger] out@[j]).0@ != (#[trigger] before[i]).0@,
                rest@ == before.subrange(k as int, n as int),
                forall|x: Seq<char>| #[trigger]
                    entry_of(out@, x) == if x == id@ {
                        None
                    } else {
                        entry_of(before.subrange(0, k as int), x)
                    },
            decreases n - k,
        {
            let ghost o0 = out@;
            let e = rest.remove(0);
            proof {
                assert(before.subrange(0, k + 1).drop_last() =~= before.subrange(0, k as int));
                assert(e == before[k as int]);
            }
            let ghost pre = before.subrange(0, k as int);
            proof {
                assert forall|i: int| 0 <= i < pre.len() implies (#[trigger] pre[i]).0@ != e.0@ by {
                    assert(pre[i] == before[i]);
                }
                lemma_entry_none(pre, e.0@);
            }
            if !str_eq(e.0.as_str(), id) {
                out.push(e);
                proof {
                    assert(out@.drop_last() == o0);
                    assert forall|j: int, i: int| 0 <= j < out@.len() && k + 1 <= i < n implies (#[trigger] out@[j]).0@ != (
                    #[trigger] before[i]).0@ by {
                        if j < o0.len() {
                            assert(out@[j] == o0[j]);
                        }
                    }
                    assert forall|a: int, b: int| 0 <= a < b < out@.len() implies (#[trigger] out@[a]).0@ != (
                    #[trigger] out@[b]).0@ by {
                        if b == o0.len() {
                            assert(out@[a] == o0[a]);
                        } else {
                            assert(out@[a] == o0[a] && out@[b] == o0[b]);
                        }
                    }
                }
            }
            proof {
                let next = before.subrange(0, k + 1);
                assert(next.drop_last() == pre);
                assert(next.last() == e);
                assert forall|x: Seq<char>| #[trigger]
                    entry_of(out@, x) == if x == id@ {
                        None
                    } else {
                        entry_of(next, x)
                    } by {
                    assert(entry_of(o0, x) == if x == id@ {
                        None
                    } else {
                        entry_of(pre, x)
                    });
                }
            }
            k = k + 1;
        }
        assert(before.subrange(0, n as int) =~= before);
        self.entries = out;
    }
}

/// A read after a write: what is stored under an id is given back while it
/// lives, and never after it expired.
pub proof fn get_after_put<T>(
    before: SessionTable<T>,
    after: SessionTable<T>,
    id: Seq<char>,
    value: T,
    put_at: u64,
    read_at: u64,
)
    requires
        forall|k: Seq<char>| #[trigger]
            after.get_spec(k) == if k == id {
                Some((value, put_at))
            } else {
                kept(before.get_spec(k), put_at)
            },
    ensures
        alive(put_at, read_at) ==> kept(after.get_spec(id), read_at) == Some((value, put_at)),
        !alive(put_at, read_at) ==> kept(after.get_spec(id), read_at) is None,
{
    assert(after.get_spec(id) == Some((value, put_at)));
}

/// What an `inspect` left: the package file, its digest, and the decrypted,
/// checked manifest.
#[derive(Debug)]
pub struct InspectContext {
    /// Package path (read again before a commit).
    pub file_path: String,
    /// Digest of the file contents (a replaced file is another package).
    pub file_digest: String,
    /// The decrypted and checked manifest.
    pub manifest: PackageManifest,
}

/// What a `plan` left: the plan and the package it came from.
#[derive(Debug)]
pub struct PlanContext {
    /// The import plan.
    pub plan: ImportPlan,
    /// Package path (read again before a commit).
    pub file_path: String,
    /// Digest of the file contents.
    pub file_digest: String,
}

/// Refusal of an unknown or expired inspect id.
pub open spec fn inspect_expired_message() -> Seq<char> {
    "预览已过期，请重新选择数据包并输入密码"@
}

/// Refusal of an unknown or expired plan id.
pub open spec fn plan_expired_message() -> Seq<char> {
    "导入计划已过期，请重新预览后再提交"@
}

/// The sessions of this process.
pub struct Sessions {
    /// Inspect contexts by `inspectId`.
    pub inspects: SessionTable<InspectContext>,
    /// Plan contexts by `planId`.
    pub plans: SessionTable<PlanContext>,
}

impl Sessions {
    /// No sessions.
    pub fn new() -> (r: Sessions)
        ensures
            forall|id: Seq<char>| #[trigger] r.inspects.get_spec(id) is None,
            forall|id: Seq<char>| #[trigger] r.plans.get_spec(id) is None,
    {
        Sessions { inspects: SessionTable::new(), plans: SessionTable::new() }
    }

    /// Registers an inspect at `now` under a fresh id `insp-<uuid>`, which is returned.
    pub fn put_inspect(&mut self, file_path: String, file_digest: String, manifest: PackageManifest, now: u64) -> (r: String)
        ensures
            r@.len() == 41,
            r@.subrange(0, 5) == "insp-"@,
            forall|k: Seq<char>| #[trigger]
                final(self).inspects.get_spec(k) == if k == r@ {
                    Some((InspectContext { file_path, file_digest, manifest }, now))
                } else {
                    kept(old(self).inspects.get_spec(k), now)
                },
            forall|k: Seq<char>| #[trigger] final(self).plans.get_spec(k) == old(self).plans.get_spec(k),
    {
        let uuid = new_uuid_string();
        let id = concat2("insp-", uuid.as_str());
        proof {
            reveal_strlit("insp-");
            assert(id@.subrange(0, 5) =~= "insp-"@);
        }
        let r = id.clone();
        self.inspects.put(id, InspectContext { file_path, file_digest, manifest }, now);
        r
    }

    /// The inspect under `id`, unless it is unknown or expired at `now`.
    pub fn inspect(&self, id: &str, now: u64) -> (r: Result<&InspectContext, String>)
        ensures
            r matches Ok(c) ==> kept(self.inspects.get_spec(id@), now) matches Some((w, _)) && *c == w,
            r matches Err(m) ==> kept(self.inspects.get_spec(id@), now) is None && m@ == inspect_expired_message(),
            kept(self.inspects.get_spec(id@), now) is None ==> r is Err,
    {
        match self.inspects.get(id, now) {
            Some(c) => Ok(c),
            None => Err(owned("预览已过期，请重新选择数据包并输入密码")),
        }
    }

    /// Registers a plan at `now` under its plan id, which is returned.
    pub fn put_plan(&mut self, plan: ImportPlan, file_path: String, file_digest: String, now: u64) -> (r: String)
        ensures
            r@ == plan.plan_id@,
            forall|k: Seq<char>| #[trigger]
                final(self).plans.get_spec(k) == if k == plan.plan_id@ {
                    Some((PlanContext { plan, file_path, file_digest }, now))
                } else {
                    kept(old(self).plans.get_spec(k), now)
                },
            forall|k: Seq<char>| #[trigger] final(self).inspects.get_spec(k) == old(self).inspects.get_spec(k),
    {
        let id = plan.plan_id.clone();
        let r = id.clone();
        self.plans.put(id, PlanContext { plan, file_path, file_digest }, now);
        r
    }

    /// The plan under `id`, unless it is unknown or expired at `now`.
    pub fn plan(&self, id: &str, now: u64) -> (r: Result<&PlanContext, String>)
        ensures
            r matches Ok(c) ==> kept(self.plans.get_spec(id@), now) matches Some((w, _)) && *c == w,
            r matches Err(m) ==> kept(self.plans.get_spec(id@), now) is None && m@ == plan_expired_message(),
            kept(self.plans.get_spec(id@), now) is None ==> r is Err,
    {
        match self.plans.get(id, now) {
            Some(c) => Ok(c),
            None => Err(owned("导入计划已过期，请重新预览后再提交")),
        }
    }

    /// Drops the plan under `id` (after a commit, so it cannot be committed twice).
    pub fn drop_plan(&mut self, id: &str)
        ensures
            forall|k: Seq<char>| #[trigger]
                final(self).plans.get_spec(k) == if k == id@ {
                    None
                } else {
                    old(self).plans.get_spec(k)
                },
            forall|k: Seq<char>| #[trigger] final(self).inspects.get_spec(k) == old(self).inspects.get_spec(k),
    {
        self.plans.remove(id);
    }
}

/// The cancellation handle of one transfer: the transfer polls it and, once
/// cancelled, cleans up what it half wrote.
#[derive(Debug, Clone, Copy, PartialEq, Eq)]
pub struct CancelToken {
    /// Which transfer it belongs to.
    id: usize,
}

impl CancelToken {
    /// Which transfer the token belongs to.
    pub closed spec fn transfer(&self) -> usize {
        self.id
    }
}

/// The transfers of this process: one runs at a time; each has its own
/// cancellation flag, and a cancellation is never undone.
pub struct TransferControl {
    /// Cancellation flag of every transfer begun, by token.
    flags: Vec<bool>,
    /// The running transfer, if any.
    current: Option<usize>,
}

/// Refusal reported to a transfer that was cancelled.
pub open spec fn cancelled_message() -> Seq<char> {
    "已取消"@
}

impl TransferControl {
    /// Cancellation flags by transfer.
    pub closed spec fn flags(&self) -> Seq<bool> {
        self.flags@
    }

    /// The running transfer.
    pub closed spec fn running(&self) -> Option<usize> {
        self.current
    }

    /// Whether the transfer of `token` was cancelled.
    pub open spec fn cancelled(&self, token: CancelToken) -> bool {
        token.transfer() < self.flags().len() && self.flags()[token.transfer() as int]
    }

    /// No transfer yet.
    pub fn new() -> (r: TransferControl)
        ensures
            r.flags().len() == 0,
            r.running() is None,
    {
        TransferControl { flags: Vec::new(), current: None }
    }

    /// Begins a transfer: a fresh token, not cancelled, becomes the running
    /// one (the previous token keeps its state but can no longer be cancelled).
    pub fn begin_transfer(&mut self) -> (token: CancelToken)
        ensures
            token.transfer() == old(self).flags().len(),
            final(self).flags() == old(self).flags().push(false),
            final(self).running() == Some(token.transfer()),
            after_transfer_call(*old(self), TransferCall::Begin, *final(self)),
    {
        let id = self.flags.len();
        self.flags.push(false);
        self.current = Some(id);
        CancelToken { id }
    }

    /// Asks the running transfer to stop; says whether one was running.
    /// Only the running transfer's flag changes.
    pub fn cancel_current(&mut self) -> (r: bool)
        ensures
            r == old(self).running() is Some,
            final(self).running() == old(self).running(),
            match old(self).running() {
                Some(i) => i < old(self).flags().len() ==> final(self).flags() == old(self).flags().update(i as int, true),
                None => final(self).flags() == old(self).flags(),
            },
            old(self).running() matches Some(i) && i >= old(self).flags().len() ==> final(self).flags()
                == old(self).flags(),
            after_transfer_call(*old(self), TransferCall::Cancel, *final(self)),
    {
        match self.current {
            Some(i) => {
                if i < self.flags.len() {
                    self.flags.set(i, true);
                }
                true
            },
            None => false,
        }
    }

    /// Ends the running transfer: a later cancel reaches nothing.
    pub fn end_transfer(&mut self)
        ensures
            final(self).running() is None,
            final(self).flags() == old(self).flags(),
            after_transfer_call(*old(self), TransferCall::End, *final(self)),
    {
        self.current = None;
    }

    /// Whether the transfer of `token` was cancelled.
    pub fn is_cancelled(&self, token: CancelToken) -> (r: bool)
        ensures
            r == self.cancelled(token),
    {
        token.id < self.flags.len() && self.flags[token.id]
    }

    /// The poll of a transfer: an error once it was cancelled.
    pub fn check(&self, token: CancelToken) -> (r: Result<(), String>)
        ensures
            r is Ok <==> !self.cancelled(token),
            r matches Err(m) ==> m@ == cancelled_message(),
    {
        if self.is_cancelled(token) {
            return Err(owned("已取消"));
        }
        Ok(())
    }
}

/// Cancellation reaches only the running transfer and is never undone:
/// after a cancel, the running transfer is cancelled and every other
/// transfer's state is unchanged.
pub proof fn cancel_reaches_only_the_running_transfer(before: TransferControl, after: TransferControl, token: CancelToken)
    requires
        before.running() matches Some(i) && i < before.flags().len(),
        after.running() == before.running(),
        after.flags() == before.flags().update(before.running()->0 as int, true),
    ensures
        token.transfer() == before.running()->0 ==> after.cancelled(token),
        token.transfer() != before.running()->0 ==> after.cancelled(token) == before.cancelled(token),
        before.cancelled(token) ==> after.cancelled(token),
{
}

/// A call that changes the transfers' state.
pub enum TransferCall {
    /// `begin_transfer`.
    Begin,
    /// `end_transfer`.
    End,
    /// `cancel_current`.
    Cancel,
}

/// What a call does to the flags and the running transfer.
pub open spec fn after_transfer_call(before: TransferControl, call: TransferCall, after: TransferControl) -> bool {
    match call {
        TransferCall::Begin => after.flags() == before.flags().push(false) && (after.running() matches Some(i) && i
            == before.flags().len()),
        TransferCall::End => after.flags() == before.flags() && after.running() is None,
        TransferCall::Cancel => after.running() == before.running() && match before.running() {
            Some(i) => if i < before.flags().len() {
                after.flags() == before.flags().update(i as int, true)
            } else {
                after.flags() == before.flags()
            },
            None => after.flags() == before.flags(),
        },
    }
}

/// `states` are the transfers' states as `calls` are made, one after the other.
pub open spec fn transfer_run(states: Seq<TransferControl>, calls: Seq<TransferCall>) -> bool {
    states.len() == calls.len() + 1 && forall|k: int|
        0 <= k < calls.len() ==> after_transfer_call(states[k], #[trigger] calls[k], states[k + 1])
}

/// The latest of the begin and end calls is a begin.
pub open spec fn last_begun(calls: Seq<TransferCall>) -> bool
    decreases calls.len(),
{
    if calls.len() == 0 {
        false
    } else {
        match calls.last() {
            TransferCall::Begin => true,
            TransferCall::End => false,
            TransferCall::Cancel => last_begun(calls.drop_last()),
        }
    }
}

/// Over any history of calls from a fresh control: a transfer is running
/// exactly when the latest of the begin and end calls was a begin, and the
/// running one is the transfer begun last. So `cancel_current` answers
/// `true` exactly then, it cancels that latest transfer, and the earlier
/// transfers' states stay as they were.
pub proof fn cancel_follows_the_history(states: Seq<TransferControl>, calls: Seq<TransferCall>)
    requires
        transfer_run(states, calls),
        states[0].flags().len() == 0,
        states[0].running() is None,
    ensures
        forall|k: int|
            0 <= k < states.len() ==> ((#[trigger] states[k].running() is Some) <==> last_begun(calls.take(k))),
        forall|k: int|
            0 <= k < states.len() ==> (#[trigger] states[k].running() matches Some(i) ==> i == states[k].flags().len() - 1),
{
    assert forall|k: int| 0 <= k < states.len() implies ((#[trigger] states[k].running() is Some) <==> last_begun(
        calls.take(k),
    )) && (states[k].running() matches Some(i) ==> i == states[k].flags().len() - 1) by {
        lemma_history(states, calls, k);
    }
}

proof fn lemma_history(states: Seq<TransferControl>, calls: Seq<TransferCall>, k: int)
    requires
        transfer_run(states, calls),
        states[0].flags().len() == 0,
        states[0].running() is None,
        0 <= k < states.len(),
    ensures
        (states[k].running() is Some) <==> last_begun(calls.take(k)),
        states[k].running() matches Some(i) ==> i == states[k].flags().len() - 1,
    decreases k,
{
    if k == 0 {
        assert(calls.take(0).len() == 0);
    } else {
        lemma_history(states, calls, k - 1);
        assert(after_transfer_call(states[k - 1], calls[k - 1], states[k]));
        assert(calls.take(k).drop_last() =~= calls.take(k - 1));
        assert(calls.take(k).last() == calls[k - 1]);
    }
}

} // verus!

