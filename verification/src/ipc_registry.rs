//! The IPC command registry: modules register their commands (owner, name,
//! description); names are globally unique, and plugin routing looks the
//! owner up by exact command name.

use vstd::prelude::*;

use crate::text::{concat2, owned, str_eq};

verus! {

/// One registered command.
#[derive(Debug)]
pub struct IpcEntry {
    /// Command name (the invoke name, globally unique).
    pub name: String,
    /// What the command does.
    pub doc: String,
    /// Owner: a plugin id or `framework`.
    pub owner: String,
}

/// View of an entry: (name, doc, owner).
pub open spec fn entry_view(e: IpcEntry) -> (Seq<char>, Seq<char>, Seq<char>) {
    (e.name@, e.doc@, e.owner@)
}

/// Views of a sequence of entries.
pub open spec fn entry_views(s: Seq<IpcEntry>) -> Seq<(Seq<char>, Seq<char>, Seq<char>)> {
    s.map_values(|e: IpcEntry| entry_view(e))
}

/// Whether some entry is named `name`.
pub open spec fn has_name(list: Seq<(Seq<char>, Seq<char>, Seq<char>)>, name: Seq<char>) -> bool {
    exists|i: int| 0 <= i < list.len() && (#[trigger] list[i]).0 == name
}

/// Names are unique.
pub open spec fn unique_names(list: Seq<(Seq<char>, Seq<char>, Seq<char>)>) -> bool {
    forall|i: int, j: int| 0 <= i < j < list.len() ==> (#[trigger] list[i]).0 != (#[trigger] list[j]).0
}

/// Registering `entries` for `owner`, in order: each new name is appended;
/// the first name already present stops the run (what was appended before
/// it stays) and is reported.
pub open spec fn register_spec(
    list: Seq<(Seq<char>, Seq<char>, Seq<char>)>,
    owner: Seq<char>,
    entries: Seq<(Seq<char>, Seq<char>)>,
) -> (Seq<(Seq<char>, Seq<char>, Seq<char>)>, Option<Seq<char>>)
    decreases entries.len(),
{
    if entries.len() == 0 {
        (list, None)
    } else if has_name(list, entries[0].0) {
        (list, Some(entries[0].0))
    } else {
        register_spec(list.push((entries[0].0, entries[0].1, owner)), owner, entries.drop_first())
    }
}

/// The owner of the first entry named `name`.
pub open spec fn owner_of_spec(list: Seq<(Seq<char>, Seq<char>, Seq<char>)>, name: Seq<char>) -> Option<Seq<char>>
    decreases list.len(),
{
    if list.len() == 0 {
        None
    } else if list[0].0 == name {
        Some(list[0].2)
    } else {
        owner_of_spec(list.drop_first(), name)
    }
}

/// Message of a duplicate registration.
pub open spec fn duplicate_message(name: Seq<char>) -> Seq<char> {
    "IPC 命令重复注册: "@ + name
}

/// Views of (name, doc) pairs.
pub open spec fn pair_views(entries: Seq<(&str, &str)>) -> Seq<(Seq<char>, Seq<char>)> {
    entries.map_values(|p: (&str, &str)| (p.0@, p.1@))
}

/// Command list item returned to the front end.
#[derive(Debug, PartialEq, Eq)]
pub struct IpcCommandInfo {
    /// Command name.
    pub name: String,
    /// What the command does.
    pub doc: String,
}

/// The registry of commands, in registration order.
pub struct IpcRegistry {
    /// Registered commands.
    entries: Vec<IpcEntry>,
}

impl IpcRegistry {
    /// Registered commands as (name, doc, owner).
    pub closed spec fn view(&self) -> Seq<(Seq<char>, Seq<char>, Seq<char>)> {
        entry_views(self.entries@)
    }

    /// Empty registry.
    pub fn new() -> (r: IpcRegistry)
        ensures
            r.view().len() == 0,
            unique_names(r.view()),
    {
        let r = IpcRegistry { entries: Vec::new() };
        assert(r.view() =~= Seq::<(Seq<char>, Seq<char>, Seq<char>)>::empty());
        r
    }

    /// Whether a command of that name is registered.
    fn contains_name(&self, name: &str) -> (r: bool)
        ensures
            r == has_name(self.view(), name@),
    {
        let mut i: usize = 0;
        while i < self.entries.len()
            invariant
                i <= self.entries@.len(),
                forall|k: int| 0 <= k < i ==> self.view()[k].0 != name@,
            decreases self.entries@.len() - i,
        {
            if str_eq(self.entries[i].name.as_str(), name) {
                assert(self.view()[i as int].0 == name@);
                return true;
            }
            i = i + 1;
        }
        false
    }

    /// Registers a module's commands. A name registered before is an error
    /// (two owners for one command would make routing ambiguous); commands
    /// listed before the duplicate stay registered.
    pub fn register(&mut self, owner: &str, entries: &[(&str, &str)]) -> (r: Result<(), String>)
        ensures
            final(self).view() == register_spec(old(self).view(), owner@, pair_views(entries@)).0,
            match register_spec(old(self).view(), owner@, pair_views(entries@)).1 {
                None => r is Ok,
                Some(name) => r is Err && r->Err_0@ == duplicate_message(name),
            },
            unique_names(old(self).view()) ==> unique_names(final(self).view()),
    {
        proof {
            if unique_names(old(self).view()) {
                registered_commands_route_to_owner(old(self).view(), owner@, pair_views(entries@));
            }
        }
        let ghost goal = register_spec(old(self).view(), owner@, pair_views(entries@));
        assert(pair_views(entries@).subrange(0, entries@.len() as int) =~= pair_views(entries@));
        let mut i: usize = 0;
        while i < entries.len()
            invariant
                i <= entries@.len(),
                goal == register_spec(old(self).view(), owner@, pair_views(entries@)),
                unique_names(old(self).view()) ==> unique_names(goal.0),
                register_spec(self.view(), owner@, pair_views(entries@).subrange(i as int, entries@.len() as int))
                    == goal,
            decreases entries@.len() - i,
        {
            let ghost rest = pair_views(entries@).subrange(i as int, entries@.len() as int);
            let (name, doc) = entries[i];
            assert(rest.len() > 0);
            assert(rest[0] == pair_views(entries@)[i as int]);
            assert(rest[0] == (name@, doc@));
            if self.contains_name(name) {
                assert(register_spec(self.view(), owner@, rest) == (self.view(), Some(name@)));
                return Err(concat2("IPC 命令重复注册: ", name));
            }
            let ghost before = self.view();
            self.entries.push(IpcEntry { name: owned(name), doc: owned(doc), owner: owned(owner) });
            proof {
                assert(self.view() =~= before.push((name@, doc@, owner@)));
                assert(rest.drop_first() =~= pair_views(entries@).subrange(i + 1, entries@.len() as int));
            }
            i = i + 1;
        }
        proof {
            assert(pair_views(entries@).subrange(i as int, entries@.len() as int).len() == 0);
        }
        Ok(())
    }

    /// Owner of a command (the routing data source; `None`: not registered).
    pub fn owner_of(&self, command: &str) -> (r: Option<String>)
        ensures
            match r {
                Some(o) => owner_of_spec(self.view(), command@) == Some(o@),
                None => owner_of_spec(self.view(), command@) is None,
            },
    {
        assert(self.view().subrange(0, self.view().len() as int) =~= self.view());
        let mut i: usize = 0;
        while i < self.entries.len()
            invariant
                i <= self.entries@.len(),
                owner_of_spec(self.view(), command@) == owner_of_spec(self.view().subrange(i as int, self.view().len() as int), command@),
            decreases self.entries@.len() - i,
        {
            proof {
                let rest = self.view().subrange(i as int, self.view().len() as int);
                assert(rest[0] == self.view()[i as int]);
                assert(rest.drop_first() =~= self.view().subrange(i + 1, self.view().len() as int));
            }
            if str_eq(self.entries[i].name.as_str(), command) {
                return Some(self.entries[i].owner.clone());
            }
            i = i + 1;
        }
        None
    }

    /// Every registered command, in registration order.
    pub fn snapshot(&self) -> (r: Vec<IpcEntry>)
        ensures
            entry_views(r@) == self.view(),
    {
        let mut out: Vec<IpcEntry> = Vec::new();
        let mut i: usize = 0;
        while i < self.entries.len()
            invariant
                i <= self.entries@.len(),
                entry_views(out@) == self.view().subrange(0, i as int),
            decreases self.entries@.len() - i,
        {
            let e = &self.entries[i];
            let ghost before = out@;
            out.push(IpcEntry { name: e.name.clone(), doc: e.doc.clone(), owner: e.owner.clone() });
            proof {
                assert(entry_views(out@) =~= entry_views(before).push(self.view()[i as int]));
                assert(self.view().subrange(0, i + 1) =~= self.view().subrange(0, i as int).push(self.view()[i as int]));
            }
            i = i + 1;
        }
        assert(self.view().subrange(0, self.view().len() as int) =~= self.view());
        out
    }

    /// The command list (name and description), in registration order.
    pub fn framework_commands(&self) -> (r: Vec<IpcCommandInfo>)
        ensures
            r@.len() == self.view().len(),
            forall|k: int| 0 <= k < r@.len() ==> (#[trigger] r@[k]).name@ == self.view()[k].0 && r@[k].doc@ == self.view()[k].1,
    {
        let mut out: Vec<IpcCommandInfo> = Vec::new();
        let mut i: usize = 0;
        while i < self.entries.len()
            invariant
                i <= self.entries@.len(),
                out@.len() == i,
                forall|k: int| 0 <= k < i ==> (#[trigger] out@[k]).name@ == self.view()[k].0 && out@[k].doc@ == self.view()[k].1,
            decreases self.entries@.len() - i,
        {
            let e = &self.entries[i];
            out.push(IpcCommandInfo { name: e.name.clone(), doc: e.doc.clone() });
            i = i + 1;
        }
        out
    }

    /// Forgets every command (test isolation).
    pub fn reset(&mut self)
        ensures
            final(self).view().len() == 0,
            unique_names(final(self).view()),
    {
        self.entries = Vec::new();
        assert(self.view() =~= Seq::<(Seq<char>, Seq<char>, Seq<char>)>::empty());
    }
}

/// The owner found for a name that occurs at position `k` of a list with
/// unique names is the owner at `k`.
proof fn lemma_owner_at(list: Seq<(Seq<char>, Seq<char>, Seq<char>)>, k: int)
    requires
        unique_names(list),
        0 <= k < list.len(),
    ensures
        owner_of_spec(list, list[k].0) == Some(list[k].2),
    decreases list.len(),
{
    if k > 0 {
        let rest = list.drop_first();
        assert(rest[k - 1] == list[k]);
        assert(list[0].0 != list[k].0);
        lemma_owner_at(rest, k - 1);
    }
}

/// Registration keeps names unique, and a successful registration routes
/// each of its commands to its owner.
pub proof fn registered_commands_route_to_owner(
    list: Seq<(Seq<char>, Seq<char>, Seq<char>)>,
    owner: Seq<char>,
    entries: Seq<(Seq<char>, Seq<char>)>,
)
    requires
        unique_names(list),
    ensures
        unique_names(register_spec(list, owner, entries).0),
        register_spec(list, owner, entries).1 is None ==> forall|k: int| 0 <= k < entries.len()
            ==> owner_of_spec(register_spec(list, owner, entries).0, #[trigger] entries[k].0) == Some(owner),
        forall|k: int| 0 <= k < list.len() ==> owner_of_spec(register_spec(list, owner, entries).0, #[trigger] list[k].0)
            == Some(list[k].2),
    decreases entries.len(),
{
    let out = register_spec(list, owner, entries).0;
    if entries.len() == 0 {
        assert forall|k: int| 0 <= k < list.len() implies owner_of_spec(out, #[trigger] list[k].0) == Some(list[k].2) by {
            lemma_owner_at(list, k);
        }
    } else if has_name(list, entries[0].0) {
        assert forall|k: int| 0 <= k < list.len() implies owner_of_spec(out, #[trigger] list[k].0) == Some(list[k].2) by {
            lemma_owner_at(list, k);
        }
    } else {
        let next = list.push((entries[0].0, entries[0].1, owner));
        assert(unique_names(next)) by {
            assert forall|i: int, j: int| 0 <= i < j < next.len() implies (#[trigger] next[i]).0 != (#[trigger] next[j]).0 by {
                if j == list.len() {
                    assert(next[i] == list[i]);
                    assert(!(list[i].0 == entries[0].0));
                }
            }
        }
        registered_commands_route_to_owner(next, owner, entries.drop_first());
        assert forall|k: int| 0 <= k < list.len() implies owner_of_spec(out, #[trigger] list[k].0) == Some(list[k].2) by {
            assert(next[k] == list[k]);
        }
        if register_spec(list, owner, entries).1 is None {
            assert forall|k: int| 0 <= k < entries.len() implies owner_of_spec(out, #[trigger] entries[k].0) == Some(owner) by {
                if k == 0 {
                    assert(next[list.len() as int] == (entries[0].0, entries[0].1, owner));
                } else {
                    assert(entries.drop_first()[k - 1] == entries[k]);
                }
            }
        }
    }
}

/// `list` with `entries` appended for `owner`, in order.
pub open spec fn appended(
    list: Seq<(Seq<char>, Seq<char>, Seq<char>)>,
    owner: Seq<char>,
    entries: Seq<(Seq<char>, Seq<char>)>,
) -> Seq<(Seq<char>, Seq<char>, Seq<char>)> {
    list + entries.map_values(|e: (Seq<char>, Seq<char>)| (e.0, e.1, owner))
}

/// Entry `i` names a command already in `list` or listed earlier in `entries`.
pub open spec fn duplicate_at(
    list: Seq<(Seq<char>, Seq<char>, Seq<char>)>,
    entries: Seq<(Seq<char>, Seq<char>)>,
    i: int,
) -> bool {
    has_name(list, entries[i].0) || exists|j: int| 0 <= j < i && (#[trigger] entries[j]).0 == entries[i].0
}

/// A registration appends every entry, in order, when none repeats a name;
/// otherwise it stops at the first repeated name, reports it, and keeps the
/// entries before it appended.
pub proof fn register_appends_all_or_stops_at_first_duplicate(
    list: Seq<(Seq<char>, Seq<char>, Seq<char>)>,
    owner: Seq<char>,
    entries: Seq<(Seq<char>, Seq<char>)>,
)
    ensures
        (forall|i: int| 0 <= i < entries.len() ==> !#[trigger] duplicate_at(list, entries, i)) ==> register_spec(
            list,
            owner,
            entries,
        ) == (appended(list, owner, entries), None::<Seq<char>>),
        forall|f: int|
            0 <= f < entries.len() && #[trigger] duplicate_at(list, entries, f) && (forall|i: int|
                0 <= i < f ==> !duplicate_at(list, entries, i)) ==> register_spec(list, owner, entries) == (
            appended(list, owner, entries.take(f)),
            Some(entries[f].0),
        ),
    decreases entries.len(),
{
    if entries.len() == 0 {
        assert(appended(list, owner, entries) =~= list);
    } else {
        let e0 = entries[0];
        let rest = entries.drop_first();
        let next = list.push((e0.0, e0.1, owner));
        assert(appended(list, owner, entries.take(0)) =~= list);
        if !has_name(list, e0.0) {
            register_appends_all_or_stops_at_first_duplicate(next, owner, rest);
            assert forall|i: int| 0 <= i < rest.len() implies #[trigger] duplicate_at(next, rest, i) == duplicate_at(
                list,
                entries,
                i + 1,
            ) by {
                assert(rest[i] == entries[i + 1]);
                if has_name(next, rest[i].0) {
                    let k = choose|k: int| 0 <= k < next.len() && (#[trigger] next[k]).0 == rest[i].0;
                    if k < list.len() {
                        assert(next[k] == list[k]);
                    } else {
                        assert(entries[0].0 == entries[i + 1].0);
                    }
                }
                if has_name(list, entries[i + 1].0) {
                    let k = choose|k: int| 0 <= k < list.len() && (#[trigger] list[k]).0 == entries[i + 1].0;
                    assert(next[k] == list[k]);
                }
                if exists|j: int| 0 <= j < i + 1 && (#[trigger] entries[j]).0 == entries[i + 1].0 {
                    let j = choose|j: int| 0 <= j < i + 1 && (#[trigger] entries[j]).0 == entries[i + 1].0;
                    if j == 0 {
                        assert(next[list.len() as int].0 == rest[i].0);
                    } else {
                        assert(rest[j - 1] == entries[j]);
                    }
                }
                if exists|j: int| 0 <= j < i && (#[trigger] rest[j]).0 == rest[i].0 {
                    let j = choose|j: int| 0 <= j < i && (#[trigger] rest[j]).0 == rest[i].0;
                    assert(rest[j] == entries[j + 1]);
                }
            }
            assert(!duplicate_at(list, entries, 0));
            if forall|i: int| 0 <= i < entries.len() ==> !#[trigger] duplicate_at(list, entries, i) {
                assert forall|i: int| 0 <= i < rest.len() implies !#[trigger] duplicate_at(next, rest, i) by {
                    assert(!duplicate_at(list, entries, i + 1));
                }
                assert(appended(next, owner, rest) =~= appended(list, owner, entries));
            }
            assert forall|f: int|
                0 <= f < entries.len() && #[trigger] duplicate_at(list, entries, f) && (forall|i: int|
                    0 <= i < f ==> !duplicate_at(list, entries, i)) implies register_spec(list, owner, entries) == (
                appended(list, owner, entries.take(f)),
                Some(entries[f].0),
            ) by {
                assert(f > 0);
                assert(duplicate_at(next, rest, f - 1));
                assert forall|i: int| 0 <= i < f - 1 implies !duplicate_at(next, rest, i) by {
                    assert(!duplicate_at(list, entries, i + 1));
                }
                assert(rest[f - 1] == entries[f]);
                assert(appended(next, owner, rest.take(f - 1)) =~= appended(list, owner, entries.take(f)));
            }
        } else {
            assert(duplicate_at(list, entries, 0));
        }
    }
}

/// Nothing is routed for a command that was never registered.
proof fn lemma_owner_none(list: Seq<(Seq<char>, Seq<char>, Seq<char>)>, name: Seq<char>)
    ensures
        (owner_of_spec(list, name) is None) == !has_name(list, name),
        owner_of_spec(list, name) matches Some(o) ==> exists|k: int|
            0 <= k < list.len() && (#[trigger] list[k]).0 == name && list[k].2 == o,
    decreases list.len(),
{
    if list.len() > 0 {
        let rest = list.drop_first();
        lemma_owner_none(rest, name);
        if has_name(rest, name) {
            let k = choose|k: int| 0 <= k < rest.len() && (#[trigger] rest[k]).0 == name;
            assert(list[k + 1] == rest[k]);
        }
        if has_name(list, name) && list[0].0 != name {
            let k = choose|k: int| 0 <= k < list.len() && (#[trigger] list[k]).0 == name;
            assert(rest[k - 1] == list[k]);
        }
        if list[0].0 != name {
            if owner_of_spec(rest, name) is Some {
                let k = choose|k: int| 0 <= k < rest.len() && (#[trigger] rest[k]).0 == name && rest[k].2
                    == owner_of_spec(rest, name)->0;
                assert(list[k + 1] == rest[k]);
            }
        }
    }
}

/// A registered command keeps its owner through any later registration, and
/// a command never registered has no owner.
pub proof fn registered_owner_is_kept(
    list: Seq<(Seq<char>, Seq<char>, Seq<char>)>,
    owner: Seq<char>,
    entries: Seq<(Seq<char>, Seq<char>)>,
    name: Seq<char>,
)
    requires
        unique_names(list),
    ensures
        owner_of_spec(list, name) matches Some(o) ==> owner_of_spec(register_spec(list, owner, entries).0, name)
            == Some(o),
        !has_name(list, name) ==> owner_of_spec(list, name) is None,
{
    lemma_owner_none(list, name);
    registered_commands_route_to_owner(list, owner, entries);
    if owner_of_spec(list, name) is Some {
        let k = choose|k: int| 0 <= k < list.len() && (#[trigger] list[k]).0 == name && list[k].2 == owner_of_spec(
            list,
            name,
        )->0;
        assert(owner_of_spec(register_spec(list, owner, entries).0, list[k].0) == Some(list[k].2));
    }
}

/// The registry after the registrations `regs` (owner and entries each), in
/// turn; a refused one leaves what it registered before its duplicate.
pub open spec fn register_all(
    list: Seq<(Seq<char>, Seq<char>, Seq<char>)>,
    regs: Seq<(Seq<char>, Seq<(Seq<char>, Seq<char>)>)>,
) -> Seq<(Seq<char>, Seq<char>, Seq<char>)>
    decreases regs.len(),
{
    if regs.len() == 0 {
        list
    } else {
        register_all(register_spec(list, regs[0].0, regs[0].1).0, regs.drop_first())
    }
}

/// An owner found for a name stays through any later registrations.
proof fn lemma_owner_kept_through(
    list: Seq<(Seq<char>, Seq<char>, Seq<char>)>,
    regs: Seq<(Seq<char>, Seq<(Seq<char>, Seq<char>)>)>,
    name: Seq<char>,
)
    requires
        unique_names(list),
        owner_of_spec(list, name) is Some,
    ensures
        owner_of_spec(register_all(list, regs), name) == owner_of_spec(list, name),
    decreases regs.len(),
{
    if regs.len() > 0 {
        let next = register_spec(list, regs[0].0, regs[0].1).0;
        registered_owner_is_kept(list, regs[0].0, regs[0].1, name);
        registered_commands_route_to_owner(list, regs[0].0, regs[0].1);
        lemma_owner_kept_through(next, regs.drop_first(), name);
    }
}

/// A command of a successful registration routes to its owner in every
/// later state: whatever is registered afterwards, its owner stays.
pub proof fn registered_command_keeps_its_owner(
    list: Seq<(Seq<char>, Seq<char>, Seq<char>)>,
    owner: Seq<char>,
    entries: Seq<(Seq<char>, Seq<char>)>,
    k: int,
    later: Seq<(Seq<char>, Seq<(Seq<char>, Seq<char>)>)>,
)
    requires
        unique_names(list),
        register_spec(list, owner, entries).1 is None,
        0 <= k < entries.len(),
    ensures
        owner_of_spec(register_all(register_spec(list, owner, entries).0, later), entries[k].0) == Some(owner),
{
    registered_commands_route_to_owner(list, owner, entries);
    assert(owner_of_spec(register_spec(list, owner, entries).0, entries[k].0) == Some(owner));
    lemma_owner_kept_through(register_spec(list, owner, entries).0, later, entries[k].0);
}

} // verus!

