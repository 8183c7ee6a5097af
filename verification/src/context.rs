//! The data context: the storage location, the space id and the epoch of
//! this start, fixed once per process; plus the stale-event counter and the
//! write freeze of an import commit.
//!
//! Paths are strings joined with `/`: joining a relative part puts one
//! separator between the parts, joining an absolute part (one that starts
//! with `/`) gives the part itself.

use vstd::prelude::*;

use crate::text::owned;

verus! {

/// Joins `part` onto `base` as a path component.
pub open spec fn join_spec(base: Seq<char>, part: Seq<char>) -> Seq<char> {
    if part.len() > 0 && part[0] == '/' {
        part
    } else if base.len() == 0 || base.last() == '/' {
        base + part
    } else {
        base + "/"@ + part
    }
}

/// Joins `part` onto `base` as a path component.
pub fn join_path(base: &str, part: &str) -> (r: String)
    ensures
        r@ == join_spec(base@, part@),
{
    let n = base.unicode_len();
    if part.unicode_len() > 0 && part.get_char(0) == '/' {
        return owned(part);
    }
    let mut out = owned(base);
    if n > 0 && base.get_char(n - 1) != '/' {
        out.append("/");
    }
    out.append(part);
    proof {
        reveal_strlit("/");
    }
    out
}

/// Space root `<device root>/spaces/<space id>`.
pub open spec fn space_root_spec(device_root: Seq<char>, space_id: Seq<char>) -> Seq<char> {
    join_spec(join_spec(device_root, "spaces"@), space_id)
}

/// Data partition `<space root>/data`.
pub open spec fn data_spec(device_root: Seq<char>, space_id: Seq<char>) -> Seq<char> {
    join_spec(space_root_spec(device_root, space_id), "data"@)
}

/// Credential partition `<space root>/vault`.
pub open spec fn vault_spec(device_root: Seq<char>, space_id: Seq<char>) -> Seq<char> {
    join_spec(space_root_spec(device_root, space_id), "vault"@)
}

/// Log partition `<device root>/logs/<space id>`.
pub open spec fn logs_spec(device_root: Seq<char>, space_id: Seq<char>) -> Seq<char> {
    join_spec(join_spec(device_root, "logs"@), space_id)
}

/// Cache partition `<device root>/cache/<space id>`.
pub open spec fn cache_spec(device_root: Seq<char>, space_id: Seq<char>) -> Seq<char> {
    join_spec(join_spec(device_root, "cache"@), space_id)
}

/// Where a start keeps its files: the device root (shared by every space:
/// logs and caches are layered under it), the space root, and the four
/// partitions every consumer takes its paths from.
#[derive(Debug, PartialEq, Eq)]
pub struct StorageLocation {
    /// Device-level storage root.
    pub device_root: String,
    /// Space root `<device root>/spaces/<uid>`.
    pub root: String,
    /// Space id (globally unique uid).
    pub space_id: String,
    /// Data partition `<space root>/data`.
    pub data: String,
    /// Credential partition `<space root>/vault`.
    pub vault: String,
    /// Log partition `<device root>/logs/<space id>` (rebuildable, stays on the device).
    pub logs: String,
    /// Cache partition `<device root>/cache/<space id>` (rebuildable, stays on the device).
    pub cache: String,
}

/// `loc` is the layout of space `space_id` under `device_root`.
pub open spec fn is_location_for(loc: StorageLocation, device_root: Seq<char>, space_id: Seq<char>) -> bool {
    &&& loc.device_root@ == device_root
    &&& loc.root@ == space_root_spec(device_root, space_id)
    &&& loc.space_id@ == space_id
    &&& loc.data@ == data_spec(device_root, space_id)
    &&& loc.vault@ == vault_spec(device_root, space_id)
    &&& loc.logs@ == logs_spec(device_root, space_id)
    &&& loc.cache@ == cache_spec(device_root, space_id)
}

impl StorageLocation {
    /// Layout of a space: the space under `<device root>/spaces/<space id>/`,
    /// logs and caches per space under the device root. Pure computation.
    pub fn for_space(device_root: &str, space_id: &str) -> (r: StorageLocation)
        ensures
            is_location_for(r, device_root@, space_id@),
    {
        let spaces = join_path(device_root, "spaces");
        let root = join_path(spaces.as_str(), space_id);
        let data = join_path(root.as_str(), "data");
        let vault = join_path(root.as_str(), "vault");
        let logs_base = join_path(device_root, "logs");
        let logs = join_path(logs_base.as_str(), space_id);
        let cache_base = join_path(device_root, "cache");
        let cache = join_path(cache_base.as_str(), space_id);
        StorageLocation {
            device_root: owned(device_root),
            root,
            space_id: owned(space_id),
            data,
            vault,
            logs,
            cache,
        }
    }
}

/// A space id whose partitions are plain components of the layout: not
/// empty, and neither starting nor ending with the separator.
pub open spec fn plain_component(id: Seq<char>) -> bool {
    id.len() > 0 && id[0] != '/' && id.last() != '/'
}

/// Joining a plain part onto a base that does not end with the separator
/// puts exactly one separator between them.
proof fn lemma_join_plain(base: Seq<char>, part: Seq<char>)
    requires
        base.len() > 0,
        base.last() != '/',
        part.len() > 0,
        part[0] != '/',
    ensures
        join_spec(base, part) == base + "/"@ + part,
        join_spec(base, part).last() == part.last(),
{
    reveal_strlit("/");
}

/// Two strings that agree after a common prefix and before a common suffix
/// agree in the middle too.
proof fn lemma_middle_injective(p: Seq<char>, a: Seq<char>, b: Seq<char>, s: Seq<char>)
    requires
        p + a + s == p + b + s,
    ensures
        a == b,
{
    let x = p + a + s;
    let y = p + b + s;
    assert(x.len() == y.len());
    assert(a.len() == b.len());
    assert forall|i: int| 0 <= i < a.len() implies a[i] == b[i] by {
        assert(x[p.len() + i] == a[i]);
        assert(y[p.len() + i] == b[i]);
    }
    assert(a =~= b);
}

/// Different spaces under one device root never share a partition: data,
/// credentials, logs and caches of two spaces are different directories.
pub proof fn spaces_do_not_share_partitions(device_root: Seq<char>, a: Seq<char>, b: Seq<char>)
    requires
        a != b,
        plain_component(a),
        plain_component(b),
    ensures
        data_spec(device_root, a) != data_spec(device_root, b),
        vault_spec(device_root, a) != vault_spec(device_root, b),
        logs_spec(device_root, a) != logs_spec(device_root, b),
        cache_spec(device_root, a) != cache_spec(device_root, b),
{
    reveal_strlit("spaces");
    reveal_strlit("logs");
    reveal_strlit("cache");
    reveal_strlit("data");
    reveal_strlit("vault");
    reveal_strlit("/");
    let sp = join_spec(device_root, "spaces"@);
    let lg = join_spec(device_root, "logs"@);
    let ca = join_spec(device_root, "cache"@);
    assert(sp.last() == 's' && sp.len() > 0);
    assert(lg.last() == 's' && lg.len() > 0);
    assert(ca.last() == 'e' && ca.len() > 0);
    lemma_join_plain(sp, a);
    lemma_join_plain(sp, b);
    lemma_join_plain(lg, a);
    lemma_join_plain(lg, b);
    lemma_join_plain(ca, a);
    lemma_join_plain(ca, b);
    let ra = space_root_spec(device_root, a);
    let rb = space_root_spec(device_root, b);
    lemma_join_plain(ra, "data"@);
    lemma_join_plain(rb, "data"@);
    lemma_join_plain(ra, "vault"@);
    lemma_join_plain(rb, "vault"@);
    let p = sp + "/"@;
    assert(ra == p + a);
    assert(rb == p + b);
    if data_spec(device_root, a) == data_spec(device_root, b) {
        assert(data_spec(device_root, a) == p + a + ("/"@ + "data"@));
        assert(data_spec(device_root, b) == p + b + ("/"@ + "data"@));
        lemma_middle_injective(p, a, b, "/"@ + "data"@);
    }
    if vault_spec(device_root, a) == vault_spec(device_root, b) {
        assert(vault_spec(device_root, a) == p + a + ("/"@ + "vault"@));
        assert(vault_spec(device_root, b) == p + b + ("/"@ + "vault"@));
        lemma_middle_injective(p, a, b, "/"@ + "vault"@);
    }
    if logs_spec(device_root, a) == logs_spec(device_root, b) {
        let q = lg + "/"@;
        assert(logs_spec(device_root, a) == q + a + Seq::<char>::empty());
        assert(logs_spec(device_root, b) == q + b + Seq::<char>::empty());
        lemma_middle_injective(q, a, b, Seq::<char>::empty());
    }
    if cache_spec(device_root, a) == cache_spec(device_root, b) {
        let q = ca + "/"@;
        assert(cache_spec(device_root, a) == q + a + Seq::<char>::empty());
        assert(cache_spec(device_root, b) == q + b + Seq::<char>::empty());
        lemma_middle_injective(q, a, b, Seq::<char>::empty());
    }
}

/// The data context of this start: immutable once fixed.
#[derive(Debug)]
pub struct DataContext {
    /// Space id (taken from the storage location, no second source).
    space_id: String,
    /// Identifies this start (used only to drop late events).
    epoch: u64,
    /// Storage location, resolved once at start.
    location: StorageLocation,
}

impl DataContext {
    /// Space id of the context.
    pub closed spec fn space(&self) -> Seq<char> {
        self.space_id@
    }

    /// Epoch of the context.
    pub closed spec fn epoch_of(&self) -> u64 {
        self.epoch
    }

    /// Storage location of the context.
    pub closed spec fn loc(&self) -> StorageLocation {
        self.location
    }

    /// Space id.
    pub fn space_id(&self) -> (r: &str)
        ensures
            r@ == self.space(),
    {
        self.space_id.as_str()
    }

    /// Epoch of this start.
    pub fn epoch(&self) -> (r: u64)
        ensures
            r == self.epoch_of(),
    {
        self.epoch
    }

    /// Storage location.
    pub fn location(&self) -> (r: &StorageLocation)
        ensures
            *r == self.loc(),
    {
        &self.location
    }
}

/// `x + 1`, wrapping to 0 after `u64::MAX`.
pub open spec fn wrapping_next(x: u64) -> u64 {
    if x == u64::MAX {
        0
    } else {
        (x + 1) as u64
    }
}

/// Process-wide context state: the context (fixed at most once), the
/// epoch sequence, the count of dropped late events and the write freeze.
pub struct ContextRuntime {
    /// The fixed context, once `init` ran.
    context: Option<DataContext>,
    /// Next epoch to hand out.
    epoch_seq: u64,
    /// Late events dropped so far.
    stale_dropped: u64,
    /// An import commit is in progress.
    write_frozen: bool,
}

impl ContextRuntime {
    /// The fixed context, if any.
    pub closed spec fn fixed(&self) -> Option<DataContext> {
        self.context
    }

    /// Next epoch to hand out.
    pub closed spec fn next_seq(&self) -> u64 {
        self.epoch_seq
    }

    /// Late events dropped so far.
    pub closed spec fn dropped(&self) -> u64 {
        self.stale_dropped
    }

    /// An import commit is in progress.
    pub closed spec fn frozen(&self) -> bool {
        self.write_frozen
    }

    /// No context yet; the epoch sequence starts at 1.
    pub fn new() -> (r: ContextRuntime)
        ensures
            r.fixed() is None,
            r.next_seq() == 1,
            r.dropped() == 0,
            !r.frozen(),
    {
        ContextRuntime { context: None, epoch_seq: 1, stale_dropped: 0, write_frozen: false }
    }

    /// Hands out the next epoch.
    fn next_epoch(&mut self) -> (r: u64)
        ensures
            r == old(self).next_seq(),
            final(self).next_seq() == wrapping_next(old(self).next_seq()),
            final(self).fixed() == old(self).fixed(),
            final(self).dropped() == old(self).dropped(),
            final(self).frozen() == old(self).frozen(),
    {
        let r = self.epoch_seq;
        self.epoch_seq = self.epoch_seq.wrapping_add(1);
        r
    }

    /// Fixes the context. Only the first call takes effect: later calls
    /// leave everything as it is and their location is dropped.
    pub fn init(&mut self, location: StorageLocation) -> (r: &DataContext)
        ensures
            old(self).fixed() is None ==> {
                &&& final(self).fixed() matches Some(ctx)
                &&& ctx.space() == location.space_id@
                &&& ctx.epoch_of() == old(self).next_seq()
                &&& ctx.loc() == location
                &&& final(self).next_seq() == wrapping_next(old(self).next_seq())
            },
            old(self).fixed() is Some ==> final(self).fixed() == old(self).fixed() && final(self).next_seq()
                == old(self).next_seq(),
            final(self).fixed() == Some(*r),
            final(self).dropped() == old(self).dropped(),
            final(self).frozen() == old(self).frozen(),
            after_call(*old(self), RuntimeCall::Init(location), *final(self)),
    {
        if self.context.is_none() {
            let epoch = self.next_epoch();
            let space_id = location.space_id.clone();
            self.context = Some(DataContext { space_id, epoch, location });
        }
        self.context.as_ref().unwrap()
    }

    /// The context, if it was fixed.
    pub fn current(&self) -> (r: Option<&DataContext>)
        ensures
            match r {
                Some(ctx) => self.fixed() == Some(*ctx),
                None => self.fixed() is None,
            },
    {
        match &self.context {
            Some(ctx) => Some(ctx),
            None => None,
        }
    }

    /// The storage location, if the context was fixed.
    pub fn location(&self) -> (r: Option<&StorageLocation>)
        ensures
            match r {
                Some(loc) => self.fixed() matches Some(ctx) && ctx.loc() == *loc,
                None => self.fixed() is None,
            },
    {
        match &self.context {
            Some(ctx) => Some(&ctx.location),
            None => None,
        }
    }

    /// The device-level storage root, if the context was fixed.
    pub fn root(&self) -> (r: Option<&str>)
        ensures
            match r {
                Some(root) => self.fixed() matches Some(ctx) && ctx.loc().device_root@ == root@,
                None => self.fixed() is None,
            },
    {
        match &self.context {
            Some(ctx) => Some(ctx.location.device_root.as_str()),
            None => None,
        }
    }

    /// Whether an event of `epoch` belongs to this start (`false`: late, drop it).
    pub fn is_current(&self, epoch: u64) -> (r: bool)
        ensures
            r == (self.fixed() matches Some(ctx) && ctx.epoch_of() == epoch),
    {
        match &self.context {
            Some(ctx) => ctx.epoch == epoch,
            None => false,
        }
    }

    /// Counts one dropped late event.
    pub fn note_stale_dropped(&mut self)
        ensures
            final(self).dropped() == wrapping_next(old(self).dropped()),
            final(self).fixed() == old(self).fixed(),
            final(self).next_seq() == old(self).next_seq(),
            final(self).frozen() == old(self).frozen(),
            after_call(*old(self), RuntimeCall::NoteStaleDropped, *final(self)),
    {
        self.stale_dropped = self.stale_dropped.wrapping_add(1);
    }

    /// Late events dropped so far.
    pub fn stale_dropped(&self) -> (r: u64)
        ensures
            r == self.dropped(),
    {
        self.stale_dropped
    }

    /// Whether an import commit is in progress.
    pub fn writes_frozen(&self) -> (r: bool)
        ensures
            r == self.frozen(),
    {
        self.write_frozen
    }

    /// Check at every user-facing write entry: refused while an import commits.
    pub fn assert_writable(&self) -> (r: Result<(), String>)
        ensures
            !self.frozen() ==> r is Ok,
            self.frozen() ==> r is Err && r->Err_0@ == write_frozen_message(),
    {
        if self.write_frozen {
            return Err(owned("数据正在提交导入，请稍候重试"));
        }
        Ok(())
    }

    /// Clears the dropped-event count (the context itself is never reset).
    pub fn reset_for_test(&mut self)
        ensures
            final(self).dropped() == 0,
            final(self).fixed() == old(self).fixed(),
            final(self).next_seq() == old(self).next_seq(),
            final(self).frozen() == old(self).frozen(),
            after_call(*old(self), RuntimeCall::ResetForTest, *final(self)),
    {
        self.stale_dropped = 0;
    }
}

/// Message of a write refused during an import commit.
pub open spec fn write_frozen_message() -> Seq<char> {
    "数据正在提交导入，请稍候重试"@
}

/// The write freeze of an import commit: held from `begin` to `release`.
pub struct WriteFreezeGuard {
    /// Private: only `begin` makes one.
    held: bool,
}

impl WriteFreezeGuard {
    /// Starts the write freeze.
    pub fn begin(runtime: &mut ContextRuntime) -> (r: WriteFreezeGuard)
        ensures
            final(runtime).frozen(),
            final(runtime).fixed() == old(runtime).fixed(),
            final(runtime).next_seq() == old(runtime).next_seq(),
            final(runtime).dropped() == old(runtime).dropped(),
            after_call(*old(runtime), RuntimeCall::Freeze, *final(runtime)),
    {
        runtime.write_frozen = true;
        WriteFreezeGuard { held: true }
    }

    /// Ends the write freeze.
    pub fn release(self, runtime: &mut ContextRuntime)
        ensures
            !final(runtime).frozen(),
            final(runtime).fixed() == old(runtime).fixed(),
            final(runtime).next_seq() == old(runtime).next_seq(),
            final(runtime).dropped() == old(runtime).dropped(),
            after_call(*old(runtime), RuntimeCall::Release, *final(runtime)),
    {
        runtime.write_frozen = false;
    }
}

/// A call that changes the process-wide context state.
pub enum RuntimeCall {
    /// `init` with this location.
    Init(StorageLocation),
    /// `note_stale_dropped`.
    NoteStaleDropped,
    /// `reset_for_test`.
    ResetForTest,
    /// `WriteFreezeGuard::begin`.
    Freeze,
    /// `WriteFreezeGuard::release`.
    Release,
}

/// What a call does to the context and the dropped-event count.
pub open spec fn after_call(before: ContextRuntime, call: RuntimeCall, after: ContextRuntime) -> bool {
    match call {
        RuntimeCall::Init(loc) => {
            &&& before.fixed() is None ==> (after.fixed() matches Some(ctx) && ctx.loc() == loc && ctx.space()
                == loc.space_id@ && ctx.epoch_of() == before.next_seq())
            &&& before.fixed() is Some ==> after.fixed() == before.fixed()
            &&& after.dropped() == before.dropped()
        },
        RuntimeCall::NoteStaleDropped => after.fixed() == before.fixed() && after.dropped() == wrapping_next(
            before.dropped(),
        ),
        RuntimeCall::ResetForTest => after.fixed() == before.fixed() && after.dropped() == 0,
        RuntimeCall::Freeze | RuntimeCall::Release => after.fixed() == before.fixed() && after.dropped() == before.dropped(),
    }
}

/// `states` are the context states of a process as `calls` are made, one
/// after the other (calls that only read leave the state as it is).
pub open spec fn run(states: Seq<ContextRuntime>, calls: Seq<RuntimeCall>) -> bool {
    states.len() == calls.len() + 1 && forall|k: int|
        0 <= k < calls.len() ==> after_call(states[k], #[trigger] calls[k], states[k + 1])
}

/// Once fixed, the context stays the same in every later state: the same
/// space id, location (so the same device root) and epoch, so `space_id`,
/// `root` and `is_current` answer the same from then on.
pub proof fn fixed_context_stays(states: Seq<ContextRuntime>, calls: Seq<RuntimeCall>)
    requires
        run(states, calls),
        states[0].fixed() is Some,
    ensures
        forall|k: int| 0 <= k < states.len() ==> #[trigger] states[k].fixed() == states[0].fixed(),
{
    assert forall|k: int| 0 <= k < states.len() implies #[trigger] states[k].fixed() == states[0].fixed() by {
        lemma_fixed_upto(states, calls, k);
    }
}

proof fn lemma_fixed_upto(states: Seq<ContextRuntime>, calls: Seq<RuntimeCall>, k: int)
    requires
        run(states, calls),
        states[0].fixed() is Some,
        0 <= k < states.len(),
    ensures
        states[k].fixed() == states[0].fixed(),
    decreases k,
{
    if k > 0 {
        lemma_fixed_upto(states, calls, k - 1);
        let c = calls[k - 1];
        assert(after_call(states[k - 1], c, states[k]));
    }
}

/// The first `init` fixes the context of the given location, and every
/// later state keeps it: the space id is the location's, the device root
/// is its root, and exactly the epoch handed out then is current.
pub proof fn first_init_fixes_context(states: Seq<ContextRuntime>, calls: Seq<RuntimeCall>, loc: StorageLocation)
    requires
        run(states, calls),
        calls.len() > 0,
        states[0].fixed() is None,
        calls[0] == RuntimeCall::Init(loc),
    ensures
        forall|k: int|
            1 <= k < states.len() ==> (#[trigger] states[k].fixed() matches Some(ctx) && ctx.loc() == loc && ctx.space()
                == loc.space_id@ && ctx.epoch_of() == states[0].next_seq()),
{
    assert(after_call(states[0], calls[0], states[1]));
    let rest = states.drop_first();
    let rest_calls = calls.drop_first();
    assert forall|k: int| 0 <= k < rest_calls.len() implies after_call(rest[k], #[trigger] rest_calls[k], rest[k + 1]) by {
        assert(after_call(states[k + 1], calls[k + 1], states[k + 2]));
    }
    fixed_context_stays(rest, rest_calls);
    assert forall|k: int| 1 <= k < states.len() implies (#[trigger] states[k].fixed() matches Some(ctx) && ctx.loc()
        == loc && ctx.space() == loc.space_id@ && ctx.epoch_of() == states[0].next_seq()) by {
        assert(rest[k - 1] == states[k]);
        assert(rest[0] == states[1]);
    }
}

/// How many calls of `calls` count a dropped late event.
pub open spec fn noted(calls: Seq<RuntimeCall>) -> nat
    decreases calls.len(),
{
    if calls.len() == 0 {
        0
    } else {
        noted(calls.drop_last()) + if calls.last() is NoteStaleDropped {
            1nat
        } else {
            0nat
        }
    }
}

/// Without a reset in between, every `note_stale_dropped` adds one to the
/// count and nothing else changes it (as long as the count does not reach
/// the `u64` limit, where it wraps).
pub proof fn dropped_count_adds_one_per_call(states: Seq<ContextRuntime>, calls: Seq<RuntimeCall>)
    requires
        run(states, calls),
        forall|k: int| 0 <= k < calls.len() ==> !(#[trigger] calls[k] is ResetForTest),
        states[0].dropped() + noted(calls) <= u64::MAX,
    ensures
        states.last().dropped() == states[0].dropped() + noted(calls),
    decreases calls.len(),
{
    if calls.len() > 0 {
        let n = calls.len() - 1;
        let s2 = states.drop_last();
        let c2 = calls.drop_last();
        assert forall|k: int| 0 <= k < c2.len() implies after_call(s2[k], #[trigger] c2[k], s2[k + 1]) by {
            assert(after_call(states[k], calls[k], states[k + 1]));
        }
        assert forall|k: int| 0 <= k < c2.len() implies !(#[trigger] c2[k] is ResetForTest) by {
            assert(c2[k] == calls[k]);
        }
        dropped_count_adds_one_per_call(s2, c2);
        assert(after_call(states[n], calls[n], states[n + 1]));
        assert(!(calls[n] is ResetForTest));
    }
}

} // verus!

