//! The static module manifest: each module's owner, front-end feature id,
//! storage key and command list are declared once; the table of declared
//! modules, the command-level comparison against the registry, and the
//! start-up checks over both.

use vstd::prelude::*;

use crate::ipc_registry::IpcRegistry;
use crate::text::{contains_char, contains_seq, decimal, decimal_spec, occurs_at, owned, sort_strings, sorted_seqs, str_eq, views};

verus! {

/// Static description of a module.
#[derive(Debug)]
pub struct ModuleSpec {
    /// Owner id: a plugin id or `framework`.
    pub owner: String,
    /// Stable front-end feature id.
    pub feature_id: String,
    /// Rust module path.
    pub rust_path: String,
    /// Storage key (`<root>/data/<key>.db`); `None`: the module keeps no database.
    pub storage_key: Option<String>,
    /// Commands: (IPC name, description).
    pub commands: Vec<(String, String)>,
}

/// Owners of a sequence of module descriptions.
pub open spec fn module_owners(s: Seq<ModuleSpec>) -> Seq<Seq<char>> {
    s.map_values(|m: ModuleSpec| m.owner@)
}

/// `after` is `before` once `spec` was declared: unchanged when its owner
/// was already declared, else with `spec` appended.
pub open spec fn module_registered(before: Seq<ModuleSpec>, spec: ModuleSpec, after: Seq<ModuleSpec>) -> bool {
    if module_owners(before).contains(spec.owner@) {
        after == before
    } else {
        after == before.push(spec)
    }
}

/// Declaring a module for an owner that was declared before changes
/// nothing: the first declaration stays, in its place.
pub proof fn declaring_an_owner_again_changes_nothing(
    t0: Seq<ModuleSpec>,
    first: ModuleSpec,
    t1: Seq<ModuleSpec>,
    again: ModuleSpec,
    t2: Seq<ModuleSpec>,
)
    requires
        module_registered(t0, first, t1),
        module_registered(t1, again, t2),
        again.owner@ == first.owner@,
    ensures
        t2 == t1,
{
    if !module_owners(t0).contains(first.owner@) {
        assert(module_owners(t1)[t0.len() as int] == first.owner@);
    }
}

/// Declared modules, in registration order, one per owner.
pub struct ModuleTable {
    /// Declared modules.
    modules: Vec<ModuleSpec>,
}

impl ModuleTable {
    /// Declared modules in registration order.
    pub closed spec fn view(&self) -> Seq<ModuleSpec> {
        self.modules@
    }

    /// Owners are unique.
    pub open spec fn wf(&self) -> bool {
        module_owners(self.view()).no_duplicates()
    }

    /// Empty table.
    pub fn new() -> (r: ModuleTable)
        ensures
            r.view().len() == 0,
            r.wf(),
    {
        let r = ModuleTable { modules: Vec::new() };
        assert(module_owners(r.view()) =~= Seq::<Seq<char>>::empty());
        r
    }

    /// Declares a module; a second declaration of an owner is ignored (the
    /// first one stays).
    pub fn register_module(&mut self, spec: ModuleSpec) -> (r: Result<(), String>)
        requires
            old(self).wf(),
        ensures
            r is Ok,
            final(self).wf(),
            module_owners(old(self).view()).contains(spec.owner@) ==> final(self).view() == old(self).view(),
            !module_owners(old(self).view()).contains(spec.owner@) ==> final(self).view() == old(self).view().push(
                spec,
            ),
            module_registered(old(self).view(), spec, final(self).view()),
    {
        let ghost owners = module_owners(self.modules@);
        let mut i: usize = 0;
        while i < self.modules.len()
            invariant
                i <= self.modules@.len(),
                owners == module_owners(self.modules@),
                self.modules@ == old(self).view(),
                owners.no_duplicates(),
                forall|k: int| 0 <= k < i ==> owners[k] != spec.owner@,
            decreases self.modules@.len() - i,
        {
            if str_eq(self.modules[i].owner.as_str(), spec.owner.as_str()) {
                assert(owners[i as int] == spec.owner@);
                return Ok(());
            }
            i = i + 1;
        }
        assert(!owners.contains(spec.owner@));
        self.modules.push(spec);
        proof {
            let o = module_owners(self.modules@);
            assert(o =~= owners.push(spec.owner@));
        }
        Ok(())
    }

    /// Declared modules in registration order.
    pub fn modules(&self) -> (r: &Vec<ModuleSpec>)
        ensures
            r@ == self.view(),
    {
        &self.modules
    }

    /// Forgets every module (test isolation).
    pub fn reset_modules(&mut self)
        ensures
            final(self).view().len() == 0,
            final(self).wf(),
    {
        self.modules = Vec::new();
        assert(module_owners(self.view()) =~= Seq::<Seq<char>>::empty());
    }
}

/// Views of (owner, command) pairs.
pub open spec fn pair_seq(s: Seq<(&str, &str)>) -> Seq<(Seq<char>, Seq<char>)> {
    s.map_values(|p: (&str, &str)| (p.0@, p.1@))
}

/// The distinct pairs of `a` that `b` lacks, in order of first occurrence.
pub open spec fn missing_from(a: Seq<(Seq<char>, Seq<char>)>, b: Seq<(Seq<char>, Seq<char>)>) -> Seq<
    (Seq<char>, Seq<char>),
>
    decreases a.len(),
{
    if a.len() == 0 {
        Seq::empty()
    } else {
        let prev = missing_from(a.drop_last(), b);
        let x = a.last();
        if b.contains(x) || a.drop_last().contains(x) {
            prev
        } else {
            prev.push(x)
        }
    }
}

/// Line of a command declared in the manifest but not registered.
pub open spec fn declared_line(p: (Seq<char>, Seq<char>)) -> Seq<char> {
    "命令 "@ + p.0 + "::"@ + p.1 + " 已声明但未登记（清单有、注册表无）"@
}

/// Line of a command registered but not declared in the manifest.
pub open spec fn registered_line(p: (Seq<char>, Seq<char>)) -> Seq<char> {
    "命令 "@ + p.0 + "::"@ + p.1 + " 已登记但清单未声明（实现了却没入库）"@
}

/// The difference lines of a comparison, before sorting.
pub open spec fn diff_lines(declared: Seq<(Seq<char>, Seq<char>)>, registered: Seq<(Seq<char>, Seq<char>)>) -> Seq<
    Seq<char>,
> {
    missing_from(declared, registered).map_values(|p: (Seq<char>, Seq<char>)| declared_line(p)) + missing_from(
        registered,
        declared,
    ).map_values(|p: (Seq<char>, Seq<char>)| registered_line(p))
}

/// Whether the pair `p` occurs among the first `upto` pairs of `s`.
fn contains_pair(s: &[(&str, &str)], upto: usize, p: (&str, &str)) -> (r: bool)
    requires
        upto <= s@.len(),
    ensures
        r == pair_seq(s@).subrange(0, upto as int).contains((p.0@, p.1@)),
{
    let ghost target = (p.0@, p.1@);
    let ghost ps = pair_seq(s@).subrange(0, upto as int);
    let mut i: usize = 0;
    while i < upto
        invariant
            i <= upto,
            upto <= s@.len(),
            ps == pair_seq(s@).subrange(0, upto as int),
            target == (p.0@, p.1@),
            forall|k: int| 0 <= k < i ==> ps[k] != target,
        decreases upto - i,
    {
        let (o, n) = s[i];
        if str_eq(o, p.0) && str_eq(n, p.1) {
            assert(ps[i as int] == target);
            return true;
        }
        assert(ps[i as int] == (o@, n@));
        i = i + 1;
    }
    false
}

/// Builds `prefix + owner + "::" + name + suffix`.
fn pair_line(prefix: &str, p: (&str, &str), suffix: &str) -> (r: String)
    ensures
        r@ == prefix@ + p.0@ + "::"@ + p.1@ + suffix@,
{
    let mut out = owned(prefix);
    out.append(p.0);
    out.append("::");
    out.append(p.1);
    out.append(suffix);
    out
}

/// Lines of the distinct pairs of `a` that `b` lacks.
fn missing_lines(a: &[(&str, &str)], b: &[(&str, &str)], declared_side: bool) -> (r: Vec<String>)
    ensures
        declared_side ==> views(r@) == missing_from(pair_seq(a@), pair_seq(b@)).map_values(
            |p: (Seq<char>, Seq<char>)| declared_line(p),
        ),
        !declared_side ==> views(r@) == missing_from(pair_seq(a@), pair_seq(b@)).map_values(
            |p: (Seq<char>, Seq<char>)| registered_line(p),
        ),
{
    let ghost pa = pair_seq(a@);
    let ghost pb = pair_seq(b@);
    let ghost line = |p: (Seq<char>, Seq<char>)|
        if declared_side {
            declared_line(p)
        } else {
            registered_line(p)
        };
    let mut out: Vec<String> = Vec::new();
    let mut i: usize = 0;
    assert(pair_seq(b@).subrange(0, b@.len() as int) =~= pb);
    while i < a.len()
        invariant
            i <= a@.len(),
            pa == pair_seq(a@),
            pb == pair_seq(b@),
            pb == pair_seq(b@).subrange(0, b@.len() as int),
            line == (|p: (Seq<char>, Seq<char>)|
                if declared_side {
                    declared_line(p)
                } else {
                    registered_line(p)
                }),
            views(out@) == missing_from(pa.subrange(0, i as int), pb).map_values(line),
        decreases a@.len() - i,
    {
        let p = a[i];
        let ghost sub = pa.subrange(0, i + 1);
        proof {
            assert(sub.drop_last() =~= pa.subrange(0, i as int));
            assert(sub.last() == (p.0@, p.1@));
            assert(pa.subrange(0, i as int) =~= pair_seq(a@).subrange(0, i as int));
        }
        let in_b = contains_pair(b, b.len(), p);
        let seen = contains_pair(a, i, p);
        if !in_b && !seen {
            let ghost before = out@;
            let text = if declared_side {
                pair_line("命令 ", p, " 已声明但未登记（清单有、注册表无）")
            } else {
                pair_line("命令 ", p, " 已登记但清单未声明（实现了却没入库）")
            };
            out.push(text);
            proof {
                assert(text@ == line((p.0@, p.1@)));
                assert(views(out@) =~= views(before).push(text@));
                assert(missing_from(sub, pb) == missing_from(pa.subrange(0, i as int), pb).push((p.0@, p.1@)));
                assert(missing_from(sub, pb).map_values(line) =~= missing_from(pa.subrange(0, i as int), pb).map_values(
                    line,
                ).push(line((p.0@, p.1@))));
            }
        } else {
            proof {
                assert(missing_from(sub, pb) == missing_from(pa.subrange(0, i as int), pb));
            }
        }
        i = i + 1;
    }
    assert(pa.subrange(0, a@.len() as int) =~= pa);
    proof {
        if declared_side {
            assert(missing_from(pa, pb).map_values(line) =~= missing_from(pa, pb).map_values(
                |p: (Seq<char>, Seq<char>)| declared_line(p),
            ));
        } else {
            assert(missing_from(pa, pb).map_values(line) =~= missing_from(pa, pb).map_values(
                |p: (Seq<char>, Seq<char>)| registered_line(p),
            ));
        }
    }
    out
}

/// Command-level comparison of the manifest with the registry, both as
/// (owner, command) pairs: one line per pair declared but not registered
/// and per pair registered but not declared, sorted.
pub fn declaration_diff(declared: &[(&str, &str)], registered: &[(&str, &str)]) -> (r: Vec<String>)
    ensures
        sorted_seqs(views(r@)),
        views(r@).to_multiset() == diff_lines(pair_seq(declared@), pair_seq(registered@)).to_multiset(),
{
    let mut diff = missing_lines(declared, registered, true);
    let mut other = missing_lines(registered, declared, false);
    let ghost a = views(diff@);
    let ghost b = views(other@);
    diff.append(&mut other);
    assert(views(diff@) =~= a + b);
    sort_strings(diff)
}

/// `missing_from(a, b)` is empty exactly when every pair of `a` is in `b`.
proof fn lemma_missing_empty(a: Seq<(Seq<char>, Seq<char>)>, b: Seq<(Seq<char>, Seq<char>)>)
    ensures
        missing_from(a, b).len() == 0 <==> (forall|k: int| 0 <= k < a.len() ==> b.contains(#[trigger] a[k])),
    decreases a.len(),
{
    if a.len() > 0 {
        let prefix = a.drop_last();
        lemma_missing_empty(prefix, b);
        if missing_from(a, b).len() == 0 {
            assert(missing_from(prefix, b).len() == 0);
            assert forall|k: int| 0 <= k < a.len() implies b.contains(#[trigger] a[k]) by {
                if k < a.len() - 1 {
                    assert(prefix[k] == a[k]);
                } else if !b.contains(a.last()) {
                    let j = choose|j: int| 0 <= j < prefix.len() && prefix[j] == a.last();
                    assert(prefix[j] == a[j]);
                }
            }
        }
        if forall|k: int| 0 <= k < a.len() ==> b.contains(#[trigger] a[k]) {
            assert forall|k: int| 0 <= k < prefix.len() implies b.contains(#[trigger] prefix[k]) by {
                assert(prefix[k] == a[k]);
            }
            assert(b.contains(a[a.len() - 1]));
        }
    }
}

/// The comparison reports nothing exactly when the manifest and the
/// registry hold the same (owner, command) pairs.
pub proof fn declaration_diff_empty_iff_same_pairs(
    declared: Seq<(Seq<char>, Seq<char>)>,
    registered: Seq<(Seq<char>, Seq<char>)>,
)
    ensures
        diff_lines(declared, registered).len() == 0 <==> (forall|p: (Seq<char>, Seq<char>)|
            declared.contains(p) <==> registered.contains(p)),
{
    lemma_missing_empty(declared, registered);
    lemma_missing_empty(registered, declared);
    if forall|p: (Seq<char>, Seq<char>)| declared.contains(p) <==> registered.contains(p) {
        assert forall|k: int| 0 <= k < declared.len() implies registered.contains(#[trigger] declared[k]) by {
            assert(declared.contains(declared[k]));
        }
        assert forall|k: int| 0 <= k < registered.len() implies declared.contains(#[trigger] registered[k]) by {
            assert(registered.contains(registered[k]));
        }
    }
    if diff_lines(declared, registered).len() == 0 {
        assert forall|p: (Seq<char>, Seq<char>)| declared.contains(p) <==> registered.contains(p) by {
            if declared.contains(p) {
                let k = choose|k: int| 0 <= k < declared.len() && declared[k] == p;
                assert(registered.contains(declared[k]));
            }
            if registered.contains(p) {
                let k = choose|k: int| 0 <= k < registered.len() && registered[k] == p;
                assert(declared.contains(registered[k]));
            }
        }
    }
}

/// Whether `::` occurs at `i` and nowhere after it.
pub open spec fn last_separator_at(s: Seq<char>, i: int) -> bool {
    occurs_at(s, "::"@, i) && forall|j: int| i < j ==> !occurs_at(s, "::"@, j)
}

/// Last segment of a `::`-separated path: what follows the last `::`, or
/// the whole path when it has none.
pub fn last_segment(path: &str) -> (r: &str)
    ensures
        !contains_seq(path@, "::"@) ==> r@ == path@,
        forall|i: int| #[trigger] last_separator_at(path@, i) ==> r@ == path@.subrange(i + 2, path@.len() as int),
{
    proof {
        reveal_strlit("::");
        assert("::"@ =~= seq![':', ':']);
    }
    let n = path.unicode_len();
    let mut k: usize = n;
    while k >= 2
        invariant
            k <= n,
            n == path@.len(),
            "::"@ == seq![':', ':'],
            forall|j: int| k - 1 <= j ==> !occurs_at(path@, "::"@, j),
        decreases k,
    {
        if path.get_char(k - 2) == ':' && path.get_char(k - 1) == ':' {
            proof {
                let i = k - 2;
                assert(path@.subrange(i, i + 2) =~= "::"@);
                assert(occurs_at(path@, "::"@, i));
                assert forall|i2: int| #[trigger] last_separator_at(path@, i2) implies i2 == i by {
                    if i2 < i {
                        assert(!occurs_at(path@, "::"@, i));
                    }
                }
            }
            return path.substring_char(k, n);
        }
        proof {
            let i = k - 2;
            if occurs_at(path@, "::"@, i) {
                assert(path@.subrange(i, i + 2)[0] == path@[i]);
                assert(path@.subrange(i, i + 2)[1] == path@[i + 1]);
            }
        }
        k = k - 1;
    }
    proof {
        assert forall|j: int| !occurs_at(path@, "::"@, j) by {
            if occurs_at(path@, "::"@, j) {
                assert(j >= 0);
            }
        }
    }
    path
}

/// IPC name of a command: its explicit alias, or the last segment of its path.
pub fn ipc_name(path: &str, alias: Option<&str>) -> (r: String)
    ensures
        alias matches Some(a) ==> r@ == a@,
        alias is None && !contains_seq(path@, "::"@) ==> r@ == path@,
        alias is None ==> forall|i: int| #[trigger] last_separator_at(path@, i) ==> r@ == path@.subrange(
            i + 2,
            path@.len() as int,
        ),
{
    match alias {
        Some(a) => owned(a),
        None => owned(last_segment(path)),
    }
}

/// The feature id written with `_` in place of `-` (the owner's form).
pub open spec fn underscore_form(s: Seq<char>) -> Seq<char> {
    s.map_values(|c: char| if c == '-' { '_' } else { c })
}

/// Whether `feature` with `-` read as `_` is `owner`.
fn same_modulo_dash(feature: &str, owner: &str) -> (r: bool)
    ensures
        r == (underscore_form(feature@) == owner@),
{
    let n = feature.unicode_len();
    if n != owner.unicode_len() {
        return false;
    }
    let mut i: usize = 0;
    while i < n
        invariant
            n == feature@.len(),
            n == owner@.len(),
            i <= n,
            forall|k: int| 0 <= k < i ==> #[trigger] underscore_form(feature@)[k] == owner@[k],
        decreases n - i,
    {
        let c = feature.get_char(i);
        let mapped = if c == '-' { '_' } else { c };
        if mapped != owner.get_char(i) {
            assert(underscore_form(feature@)[i as int] != owner@[i as int]);
            return false;
        }
        i = i + 1;
    }
    assert(underscore_form(feature@) =~= owner@);
    true
}

/// A storage key is a bare file stem: no separator and no extension dot.
pub open spec fn valid_storage_key(key: Seq<char>) -> bool {
    !key.contains('/') && !key.contains('\\') && !key.contains('.')
}

/// The first start-up problem of one module, if any: a plugin's feature id
/// must match its owner, the command list must not be empty, the storage
/// key must be a file stem, and a plugin must have a route.
pub open spec fn module_problem(m: ModuleSpec, routable: Seq<Seq<char>>) -> Option<Seq<char>> {
    if m.owner@ != "framework"@ && underscore_form(m.feature_id@) != m.owner@ {
        Some("模块 "@ + m.rust_path@ + " 的 featureId "@ + m.feature_id@ + " 与 owner 不一致"@)
    } else if m.commands@.len() == 0 {
        Some("模块 "@ + m.rust_path@ + " 未声明任何命令（清单漏写？）"@)
    } else if m.storage_key is Some && !valid_storage_key(m.storage_key.unwrap()@) {
        Some("模块 "@ + m.rust_path@ + " 的存储键 "@ + m.storage_key.unwrap()@ + " 不合法（只能是文件名主干）"@)
    } else if m.owner@ != "framework"@ && !routable.contains(m.owner@) {
        Some("模块 "@ + m.owner@ + " 的命令没有路由分支"@)
    } else {
        None
    }
}

/// The first problem among modules, in order.
pub open spec fn first_module_problem(ms: Seq<ModuleSpec>, routable: Seq<Seq<char>>) -> Option<Seq<char>>
    decreases ms.len(),
{
    if ms.len() == 0 {
        None
    } else {
        match module_problem(ms[0], routable) {
            Some(p) => Some(p),
            None => first_module_problem(ms.drop_first(), routable),
        }
    }
}

/// A module list that holds a module without commands is refused at start-up,
/// wherever that module stands and whatever the other modules are.
pub proof fn module_without_commands_is_refused(ms: Seq<ModuleSpec>, routable: Seq<Seq<char>>, k: int)
    requires
        0 <= k < ms.len(),
        ms[k].commands@.len() == 0,
    ensures
        first_module_problem(ms, routable) is Some,
    decreases k,
{
    if k > 0 && module_problem(ms[0], routable) is None {
        assert(ms.drop_first()[k - 1] == ms[k]);
        module_without_commands_is_refused(ms.drop_first(), routable, k - 1);
    }
}

/// A module list accepted at start-up is complete: every module declares
/// commands, its storage key (if any) is a bare file stem, and every plugin
/// module's feature id matches its owner and its owner has a route.
pub proof fn accepted_modules_are_complete(ms: Seq<ModuleSpec>, routable: Seq<Seq<char>>, k: int)
    requires
        first_module_problem(ms, routable) is None,
        0 <= k < ms.len(),
    ensures
        ms[k].commands@.len() > 0,
        ms[k].storage_key matches Some(key) ==> valid_storage_key(key@),
        ms[k].owner@ != "framework"@ ==> routable.contains(ms[k].owner@) && underscore_form(ms[k].feature_id@)
            == ms[k].owner@,
    decreases k,
{
    if k > 0 {
        assert(ms.drop_first()[k - 1] == ms[k]);
        accepted_modules_are_complete(ms.drop_first(), routable, k - 1);
    }
}

/// The first registered plugin command without a route, as its problem line.
pub open spec fn first_unrouted_command(
    entries: Seq<(Seq<char>, Seq<char>, Seq<char>)>,
    routable: Seq<Seq<char>>,
) -> Option<Seq<char>>
    decreases entries.len(),
{
    if entries.len() == 0 {
        None
    } else if entries[0].2 != "framework"@ && !routable.contains(entries[0].2) {
        Some("IPC 命令 "@ + entries[0].0 + " 的归属者 "@ + entries[0].2 + " 没有路由分支（plugins/mod.rs 清单缺该模块）"@)
    } else {
        first_unrouted_command(entries.drop_first(), routable)
    }
}

/// Views of route owner names.
pub open spec fn str_views(s: Seq<&str>) -> Seq<Seq<char>> {
    s.map_values(|o: &str| o@)
}

/// Whether `owner` is among the routed owners.
fn is_routed(routable: &[&str], owner: &str) -> (r: bool)
    ensures
        r == str_views(routable@).contains(owner@),
{
    let mut i: usize = 0;
    while i < routable.len()
        invariant
            i <= routable@.len(),
            forall|k: int| 0 <= k < i ==> str_views(routable@)[k] != owner@,
        decreases routable@.len() - i,
    {
        if str_eq(routable[i], owner) {
            assert(str_views(routable@)[i as int] == owner@);
            return true;
        }
        i = i + 1;
    }
    false
}

/// Appends `s` to `out`.
fn push_str(out: &mut String, s: &str)
    ensures
        final(out)@ == old(out)@ + s@,
{
    out.append(s);
}

/// The start-up problem of one module, if any.
fn check_module(m: &ModuleSpec, routable: &[&str]) -> (r: Option<String>)
    ensures
        match r {
            Some(p) => module_problem(*m, str_views(routable@)) == Some(p@),
            None => module_problem(*m, str_views(routable@)) is None,
        },
{
    let framework = str_eq(m.owner.as_str(), "framework");
    if !framework && !same_modulo_dash(m.feature_id.as_str(), m.owner.as_str()) {
        let mut line = owned("模块 ");
        push_str(&mut line, m.rust_path.as_str());
        push_str(&mut line, " 的 featureId ");
        push_str(&mut line, m.feature_id.as_str());
        push_str(&mut line, " 与 owner 不一致");
        return Some(line);
    }
    if m.commands.len() == 0 {
        let mut line = owned("模块 ");
        push_str(&mut line, m.rust_path.as_str());
        push_str(&mut line, " 未声明任何命令（清单漏写？）");
        return Some(line);
    }
    match &m.storage_key {
        Some(key) => {
            let k = key.as_str();
            if contains_char(k, '/') || contains_char(k, '\\') || contains_char(k, '.') {
                let mut line = owned("模块 ");
                push_str(&mut line, m.rust_path.as_str());
                push_str(&mut line, " 的存储键 ");
                push_str(&mut line, k);
                push_str(&mut line, " 不合法（只能是文件名主干）");
                return Some(line);
            }
        },
        None => {},
    }
    if !framework && !is_routed(routable, m.owner.as_str()) {
        let mut line = owned("模块 ");
        push_str(&mut line, m.owner.as_str());
        push_str(&mut line, " 的命令没有路由分支");
        return Some(line);
    }
    None
}

/// Start-up routing check: every declared module is complete and every
/// plugin owner (of a module or of a registered command) has a route. The
/// first problem is returned, modules first.
pub fn validate_routing(modules: &Vec<ModuleSpec>, registry: &IpcRegistry, routable: &[&str]) -> (r: Result<(), String>)
    ensures
        match first_module_problem(modules@, str_views(routable@)) {
            Some(p) => r is Err && r->Err_0@ == p,
            None => match first_unrouted_command(registry.view(), str_views(routable@)) {
                Some(p) => r is Err && r->Err_0@ == p,
                None => r is Ok,
            },
        },
{
    let ghost rv = str_views(routable@);
    assert(modules@.subrange(0, modules@.len() as int) =~= modules@);
    let mut i: usize = 0;
    while i < modules.len()
        invariant
            i <= modules@.len(),
            rv == str_views(routable@),
            first_module_problem(modules@, rv) == first_module_problem(modules@.subrange(i as int, modules@.len() as int), rv),
        decreases modules@.len() - i,
    {
        proof {
            let rest = modules@.subrange(i as int, modules@.len() as int);
            assert(rest[0] == modules@[i as int]);
            assert(rest.drop_first() =~= modules@.subrange(i + 1, modules@.len() as int));
        }
        match check_module(&modules[i], routable) {
            Some(problem) => return Err(problem),
            None => {},
        }
        i = i + 1;
    }
    assert(modules@.subrange(i as int, modules@.len() as int).len() == 0);
    let entries = registry.snapshot();
    let ghost ev = registry.view();
    assert(ev.subrange(0, ev.len() as int) =~= ev);
    let mut j: usize = 0;
    while j < entries.len()
        invariant
            j <= entries@.len(),
            ev == registry.view(),
            crate::ipc_registry::entry_views(entries@) == ev,
            rv == str_views(routable@),
            first_module_problem(modules@, rv) is None,
            first_unrouted_command(ev, rv) == first_unrouted_command(ev.subrange(j as int, ev.len() as int), rv),
        decreases entries@.len() - j,
    {
        let e = &entries[j];
        proof {
            let rest = ev.subrange(j as int, ev.len() as int);
            assert(ev[j as int] == crate::ipc_registry::entry_view(entries@[j as int]));
            assert(rest[0] == ev[j as int]);
            assert(rest.drop_first() =~= ev.subrange(j + 1, ev.len() as int));
        }
        if !str_eq(e.owner.as_str(), "framework") && !is_routed(routable, e.owner.as_str()) {
            let mut line = owned("IPC 命令 ");
            push_str(&mut line, e.name.as_str());
            push_str(&mut line, " 的归属者 ");
            push_str(&mut line, e.owner.as_str());
            push_str(&mut line, " 没有路由分支（plugins/mod.rs 清单缺该模块）");
            return Err(line);
        }
        j = j + 1;
    }
    Ok(())
}

/// The (owner, command) pairs the modules declare, module by module.
pub open spec fn declared_pairs(ms: Seq<ModuleSpec>) -> Seq<(Seq<char>, Seq<char>)>
    decreases ms.len(),
{
    if ms.len() == 0 {
        Seq::empty()
    } else {
        declared_pairs(ms.drop_last()) + ms.last().commands@.map_values(
            |c: (String, String)| (ms.last().owner@, c.0@),
        )
    }
}

/// The (owner, command) pairs of the registry.
pub open spec fn registered_pairs(entries: Seq<(Seq<char>, Seq<char>, Seq<char>)>) -> Seq<(Seq<char>, Seq<char>)> {
    entries.map_values(|e: (Seq<char>, Seq<char>, Seq<char>)| (e.2, e.0))
}

/// Lines joined by newlines.
pub open spec fn joined_lines(lines: Seq<Seq<char>>) -> Seq<char>
    decreases lines.len(),
{
    if lines.len() == 0 {
        Seq::empty()
    } else if lines.len() == 1 {
        lines[0]
    } else {
        joined_lines(lines.drop_last()) + "\n"@ + lines.last()
    }
}

/// Message of a manifest that disagrees with the registry.
pub open spec fn mismatch_message(lines: Seq<Seq<char>>) -> Seq<char> {
    "IPC 命令清单与注册表不一致（"@ + decimal_spec(lines.len()) + " 处）：\n"@ + joined_lines(lines)
}

/// Joins lines with newlines.
fn join_lines(lines: &Vec<String>) -> (r: String)
    ensures
        r@ == joined_lines(views(lines@)),
{
    let mut out = String::new();
    let mut i: usize = 0;
    while i < lines.len()
        invariant
            i <= lines@.len(),
            out@ == joined_lines(views(lines@).subrange(0, i as int)),
        decreases lines@.len() - i,
    {
        proof {
            let sub = views(lines@).subrange(0, i + 1);
            assert(sub.drop_last() =~= views(lines@).subrange(0, i as int));
            assert(sub.last() == lines@[i as int]@);
        }
        if i > 0 {
            out.append("\n");
        }
        out.append(lines[i].as_str());
        proof {
            if i == 0 {
                assert(views(lines@).subrange(0, 0) =~= Seq::<Seq<char>>::empty());
                assert(out@ =~= lines@[0]@);
            }
        }
        i = i + 1;
    }
    assert(views(lines@).subrange(0, lines@.len() as int) =~= views(lines@));
    out
}

/// Command-level check at start-up: the commands the modules declare and
/// the commands registered must be the same (owner, command) pairs; a
/// mismatch is reported with every difference line, sorted.
pub fn validate_command_declarations(modules: &Vec<ModuleSpec>, registry: &IpcRegistry) -> (r: Result<(), String>)
    ensures
        diff_lines(declared_pairs(modules@), registered_pairs(registry.view())).len() == 0 ==> r is Ok,
        diff_lines(declared_pairs(modules@), registered_pairs(registry.view())).len() > 0 ==> r is Err && exists|
            lines: Seq<Seq<char>>,
        |
            sorted_seqs(lines) && lines.to_multiset() == diff_lines(
                declared_pairs(modules@),
                registered_pairs(registry.view()),
            ).to_multiset() && r->Err_0@ == mismatch_message(lines),
{
    let mut declared: Vec<(&str, &str)> = Vec::new();
    let mut i: usize = 0;
    while i < modules.len()
        invariant
            i <= modules@.len(),
            pair_seq(declared@) == declared_pairs(modules@.subrange(0, i as int)),
        decreases modules@.len() - i,
    {
        let m = &modules[i];
        let ghost base = declared@;
        let mut j: usize = 0;
        while j < m.commands.len()
            invariant
                j <= m.commands@.len(),
                pair_seq(declared@) == pair_seq(base) + m.commands@.subrange(0, j as int).map_values(
                    |c: (String, String)| (m.owner@, c.0@),
                ),
            decreases m.commands@.len() - j,
        {
            let ghost before = declared@;
            declared.push((m.owner.as_str(), m.commands[j].0.as_str()));
            proof {
                assert(pair_seq(declared@) =~= pair_seq(before).push((m.owner@, m.commands@[j as int].0@)));
                assert(m.commands@.subrange(0, j + 1).map_values(|c: (String, String)| (m.owner@, c.0@))
                    =~= m.commands@.subrange(0, j as int).map_values(|c: (String, String)| (m.owner@, c.0@)).push(
                    (m.owner@, m.commands@[j as int].0@),
                ));
            }
            j = j + 1;
        }
        proof {
            let sub = modules@.subrange(0, i + 1);
            assert(sub.drop_last() =~= modules@.subrange(0, i as int));
            assert(sub.last() == modules@[i as int]);
            assert(m.commands@.subrange(0, m.commands@.len() as int) =~= m.commands@);
        }
        i = i + 1;
    }
    assert(modules@.subrange(0, modules@.len() as int) =~= modules@);
    let entries = registry.snapshot();
    let mut registered: Vec<(&str, &str)> = Vec::new();
    let mut k: usize = 0;
    while k < entries.len()
        invariant
            k <= entries@.len(),
            crate::ipc_registry::entry_views(entries@) == registry.view(),
            pair_seq(registered@) == registered_pairs(registry.view()).subrange(0, k as int),
        decreases entries@.len() - k,
    {
        let e = &entries[k];
        let ghost before = registered@;
        registered.push((e.owner.as_str(), e.name.as_str()));
        proof {
            assert(registry.view()[k as int] == crate::ipc_registry::entry_view(entries@[k as int]));
            assert(pair_seq(registered@) =~= pair_seq(before).push((e.owner@, e.name@)));
            assert(registered_pairs(registry.view()).subrange(0, k + 1) =~= registered_pairs(registry.view()).subrange(
                0,
                k as int,
            ).push((e.owner@, e.name@)));
        }
        k = k + 1;
    }
    assert(registered_pairs(registry.view()).subrange(0, entries@.len() as int) =~= registered_pairs(registry.view()));
    let diff = declaration_diff(declared.as_slice(), registered.as_slice());
    proof {
        vstd::seq_lib::to_multiset_len(views(diff@));
        vstd::seq_lib::to_multiset_len(diff_lines(declared_pairs(modules@), registered_pairs(registry.view())));
    }
    if diff.len() == 0 {
        return Ok(());
    }
    let count = decimal(diff.len() as u64);
    let mut message = owned("IPC 命令清单与注册表不一致（");
    push_str(&mut message, count.as_str());
    push_str(&mut message, " 处）：\n");
    let body = join_lines(&diff);
    push_str(&mut message, body.as_str());
    assert(message@ == mismatch_message(views(diff@)));
    Err(message)
}

/// Views of (name, description) entries.
pub open spec fn command_views(s: Seq<(String, String)>) -> Seq<(Seq<char>, Seq<char>)> {
    s.map_values(|p: (String, String)| (p.0@, p.1@))
}

/// The framework's own commands: (IPC name, description).
pub open spec fn framework_command_table() -> Seq<(Seq<char>, Seq<char>)> {
    seq![
        ("window_toggle"@, "切换主窗口显示/隐藏（返回切换后可见性）"@),
        ("window_hide"@, "隐藏主窗口（最小化到托盘）"@),
        ("open_external"@, "打开外部链接（tauri-plugin-opener，安全替代 shell 插件）"@),
        ("framework_commands"@, "查询全量已入库 IPC 命令（名称 + 说明）"@),
        ("framework_tasks"@, "查询框架长任务清单（活跃与最近结束，供界面与诊断使用）"@),
        ("app_request_exit"@, "请求退出应用（业务可拒绝，拒绝原因交回前端展示）"@),
        ("app_force_exit"@, "用户强制退出（跳过业务拦截，清理仍受总超时约束）"@),
        ("settings_get"@, "读取应用设置（可指定 key）"@),
        ("settings_set"@, "写入应用设置（launchAtStartup 有联动副作用）"@),
        ("settings_patch"@, "批量写入应用设置（带版本号校验，拒绝陈旧覆盖）"@),
        ("settings_set_tool"@, "按工具与键写入工具级设置"@),
        ("settings_revision"@, "读取设置版本号（保存时回传防覆盖）"@),
        ("update_availability"@, "读取更新可用性（占位公钥等无效配置按不可用上报）"@),
        ("storage_info"@, "读取存储位置信息（四分区路径与占用、待执行计划、恢复状态）"@),
        ("storage_schedule_migration"@, "安排存储目录迁移（只登记计划，重启后复制并校验）"@),
        ("storage_cancel_migration"@, "取消待执行的存储目录迁移计划（不修改业务文件）"@),
        ("storage_recovery_status"@, "读取存储恢复状态（配置盘不可用或迁移失败）"@),
        ("storage_recovery_action"@, "执行存储恢复动作（retry/use-default/choose）"@),
        ("vault_list"@, "凭证列表（脱敏摘要：id/name/kind/掩码/时间，无明文）"@),
        ("vault_save"@, "新增/更新凭证（payload 打包，id 可选 upsert）"@),
        ("vault_delete"@, "删除凭证（返回被引用计数供前端提示）"@),
        ("vault_credential_references"@, "查询凭证引用概况（按插件自报能力批量扫描）"@),
        ("vault_reveal"@, "读取单条凭证明文（仅用户点显示/复制时调用）"@),
        ("vault_protection_status"@, "凭证保护状态（主密钥实际来源与可用性，设置页展示）"@),
        ("vault_export"@, "密码加密导出 .pbvault 备份（Argon2id 派生密钥）"@),
        ("vault_import"@, "解密导入 .pbvault 备份（合并/覆盖由 UI 选择）"@),
    ]
}

/// The framework's command table: (IPC name, description) of each command
/// the framework itself serves.
pub fn framework_ipc_entries() -> (r: Vec<(String, String)>)
    ensures
        command_views(r@) == framework_command_table(),
{
    let mut e: Vec<(String, String)> = Vec::new();
    e.push((owned("window_toggle"), owned("切换主窗口显示/隐藏（返回切换后可见性）")));
    e.push((owned("window_hide"), owned("隐藏主窗口（最小化到托盘）")));
    e.push((owned("open_external"), owned("打开外部链接（tauri-plugin-opener，安全替代 shell 插件）")));
    e.push((owned("framework_commands"), owned("查询全量已入库 IPC 命令（名称 + 说明）")));
    e.push((owned("framework_tasks"), owned("查询框架长任务清单（活跃与最近结束，供界面与诊断使用）")));
    e.push((owned("app_request_exit"), owned("请求退出应用（业务可拒绝，拒绝原因交回前端展示）")));
    e.push((owned("app_force_exit"), owned("用户强制退出（跳过业务拦截，清理仍受总超时约束）")));
    e.push((owned("settings_get"), owned("读取应用设置（可指定 key）")));
    e.push((owned("settings_set"), owned("写入应用设置（launchAtStartup 有联动副作用）")));
    e.push((owned("settings_patch"), owned("批量写入应用设置（带版本号校验，拒绝陈旧覆盖）")));
    e.push((owned("settings_set_tool"), owned("按工具与键写入工具级设置")));
    e.push((owned("settings_revision"), owned("读取设置版本号（保存时回传防覆盖）")));
    e.push((owned("update_availability"), owned("读取更新可用性（占位公钥等无效配置按不可用上报）")));
    e.push((owned("storage_info"), owned("读取存储位置信息（四分区路径与占用、待执行计划、恢复状态）")));
    e.push((owned("storage_schedule_migration"), owned("安排存储目录迁移（只登记计划，重启后复制并校验）")));
    e.push((owned("storage_cancel_migration"), owned("取消待执行的存储目录迁移计划（不修改业务文件）")));
    e.push((owned("storage_recovery_status"), owned("读取存储恢复状态（配置盘不可用或迁移失败）")));
    e.push((owned("storage_recovery_action"), owned("执行存储恢复动作（retry/use-default/choose）")));
    e.push((owned("vault_list"), owned("凭证列表（脱敏摘要：id/name/kind/掩码/时间，无明文）")));
    e.push((owned("vault_save"), owned("新增/更新凭证（payload 打包，id 可选 upsert）")));
    e.push((owned("vault_delete"), owned("删除凭证（返回被引用计数供前端提示）")));
    e.push((owned("vault_credential_references"), owned("查询凭证引用概况（按插件自报能力批量扫描）")));
    e.push((owned("vault_reveal"), owned("读取单条凭证明文（仅用户点显示/复制时调用）")));
    e.push((owned("vault_protection_status"), owned("凭证保护状态（主密钥实际来源与可用性，设置页展示）")));
    e.push((owned("vault_export"), owned("密码加密导出 .pbvault 备份（Argon2id 派生密钥）")));
    e.push((owned("vault_import"), owned("解密导入 .pbvault 备份（合并/覆盖由 UI 选择）")));
    assert(command_views(e@) =~= framework_command_table());
    e
}

/// The framework's module description: owner `framework`, feature `core`,
/// no database of its own, and the framework command table.
pub fn framework_module() -> (r: ModuleSpec)
    ensures
        r.owner@ == "framework"@,
        r.feature_id@ == "core"@,
        r.rust_path@ == "covekit::framework"@,
        r.storage_key is None,
        command_views(r.commands@) == framework_command_table(),
{
    ModuleSpec {
        owner: owned("framework"),
        feature_id: owned("core"),
        rust_path: owned("covekit::framework"),
        storage_key: None,
        commands: framework_ipc_entries(),
    }
}

} // verus!
