//! The storage files an adapter may name, relative to a space root: only
//! plain relative paths inside the space are accepted (no absolute path, no
//! drive or backslash, no `..`, no leading `.`). Walking the path for links
//! and listing directories is done by the caller.

use vstd::prelude::*;

use crate::data_transfer::lineage::IMPORT_MAP_FILE;
use crate::text::{contains_char, lemma_seq_lt_irreflexive, lemma_seq_lt_transitive, lemma_seq_lt_trichotomy, owned, seq_lt, str_eq, str_lt, views};

verus! {

/// A `..` component starts at position `i` of `s`.
pub open spec fn dotdot_at(s: Seq<char>, i: int) -> bool {
    &&& 0 <= i
    &&& i + 2 <= s.len()
    &&& (i == 0 || s[i - 1] == '/')
    &&& s[i] == '.'
    &&& s[i + 1] == '.'
    &&& (i + 2 == s.len() || s[i + 2] == '/')
}

/// The path starts with a `.` component.
pub open spec fn leading_dot(s: Seq<char>) -> bool {
    s.len() >= 1 && s[0] == '.' && (s.len() == 1 || s[1] == '/')
}

/// A plain relative path: every component is a name (empty and inner `.`
/// components are ignored, as path splitting ignores them).
pub open spec fn plain_relative(s: Seq<char>) -> bool {
    &&& s.len() > 0
    &&& !s.contains(':')
    &&& !s.contains('\\')
    &&& s[0] != '/'
    &&& !leading_dot(s)
    &&& forall|i: int| !dotdot_at(s, i)
}

/// The report of a path that is not a plain relative path.
pub open spec fn bad_path_message() -> Seq<char> {
    "存储清单含非法相对路径"@
}

/// Whether `relative` is a plain relative path.
pub fn is_plain_relative(relative: &str) -> (r: bool)
    ensures
        r == plain_relative(relative@),
{
    let n = relative.unicode_len();
    if n == 0 || contains_char(relative, ':') || contains_char(relative, '\\') {
        return false;
    }
    if relative.get_char(0) == '/' {
        return false;
    }
    if relative.get_char(0) == '.' && (n == 1 || relative.get_char(1) == '/') {
        return false;
    }
    let mut i: usize = 0;
    while i < n
        invariant
            n == relative@.len(),
            i <= n,
            forall|k: int| 0 <= k < i ==> !dotdot_at(relative@, k),
        decreases n - i,
    {
        if i + 1 < n && (i == 0 || relative.get_char(i - 1) == '/') && relative.get_char(i) == '.' && relative.get_char(
            i + 1,
        ) == '.' && (i + 2 == n || relative.get_char(i + 2) == '/') {
            assert(dotdot_at(relative@, i as int));
            return false;
        }
        i = i + 1;
    }
    assert forall|k: int| !dotdot_at(relative@, k) by {
        if 0 <= k && k < i {
        }
    }
    true
}

/// Checks a storage path named by an adapter.
pub fn validate_relative(relative: &str) -> (r: Result<(), String>)
    ensures
        if plain_relative(relative@) {
            r is Ok
        } else {
            r matches Err(m) && m@ == bad_path_message()
        },
{
    if is_plain_relative(relative) {
        Ok(())
    } else {
        let m = owned("存储清单含非法相对路径");
        proof {
            reveal_strlit("存储清单含非法相对路径");
        }
        Err(m)
    }
}

/// The stores every space has: the import map, the SSH database and the preferences file.
pub open spec fn base_files() -> Seq<Seq<char>> {
    seq![IMPORT_MAP_FILE@, "data/ssh.db"@, "preferences.json"@]
}

/// Names strictly ascending.
pub open spec fn strictly_ascending(s: Seq<Seq<char>>) -> bool {
    forall|i: int, j: int| 0 <= i < j < s.len() ==> seq_lt(#[trigger] s[i], #[trigger] s[j])
}

/// Puts a name into a strictly ascending list unless it is already there;
/// says whether it was new.
pub(crate) fn insert_unique(names: &mut Vec<String>, name: String) -> (added: bool)
    requires
        strictly_ascending(views(old(names)@)),
    ensures
        strictly_ascending(views(final(names)@)),
        views(final(names)@).to_set() == views(old(names)@).to_set().insert(name@),
        added == !views(old(names)@).contains(name@),
{
    let ghost before = views(names@);
    let mut p: usize = 0;
    while p < names.len() && str_lt(names[p].as_str(), name.as_str())
        invariant
            p <= names@.len(),
            before == views(names@),
            forall|q: int| 0 <= q < p ==> seq_lt(#[trigger] before[q], name@),
        decreases names@.len() - p,
    {
        p = p + 1;
    }
    if p < names.len() && str_eq(names[p].as_str(), name.as_str()) {
        proof {
            assert(before[p as int] == name@);
            assert(before.to_set().insert(name@) =~= before.to_set());
        }
        return false;
    }
    proof {
        if p < before.len() {
            assert(before[p as int] != name@);
            lemma_seq_lt_trichotomy(name@, before[p as int]);
        }
    }
    let ghost nv = name@;
    names.insert(p, name);
    proof {
        let now = views(names@);
        assert(now =~= before.insert(p as int, nv));
        assert forall|a: int, b: int| 0 <= a < b < now.len() implies seq_lt(#[trigger] now[a], #[trigger] now[b]) by {
            if a == p {
                assert(now[b] == before[b - 1]);
                if b - 1 > p {
                    lemma_seq_lt_transitive(nv, before[p as int], before[b - 1]);
                }
            } else if b == p {
                assert(now[a] == before[a]);
            } else if a < p && b > p {
                assert(now[a] == before[a] && now[b] == before[b - 1]);
            } else if a > p {
                assert(now[a] == before[a - 1] && now[b] == before[b - 1]);
            } else {
                assert(now[a] == before[a] && now[b] == before[b]);
            }
        }
        assert forall|x: Seq<char>| #[trigger] now.to_set().contains(x) == before.to_set().insert(nv).contains(x) by {
            if now.contains(x) {
                let k = choose|k: int| 0 <= k < now.len() && now[k] == x;
                if k < p {
                    assert(before[k] == x);
                } else if k > p {
                    assert(before[k - 1] == x);
                }
            }
            if before.contains(x) {
                let k = choose|k: int| 0 <= k < before.len() && before[k] == x;
                if k < p {
                    assert(now[k] == x);
                } else {
                    assert(now[k + 1] == x);
                }
            }
            if x == nv {
                assert(now[p as int] == nv);
            }
        }
        assert(now.to_set() =~= before.to_set().insert(nv));
        if before.contains(nv) {
            let k = choose|k: int| 0 <= k < before.len() && before[k] == nv;
            if k < p {
                lemma_seq_lt_irreflexive(nv);
            } else {
                lemma_seq_lt_trichotomy(nv, before[p as int]);
                if k > p {
                    lemma_seq_lt_transitive(nv, before[p as int], before[k]);
                    lemma_seq_lt_irreflexive(nv);
                }
            }
        }
    }
    true
}

/// Every store to snapshot and track: the stores every space has plus the
/// adapters' stores, in name order without repeats. A name that is not a
/// plain relative path is refused.
pub fn tracked_files(adapter_files: &Vec<String>) -> (r: Result<Vec<String>, String>)
    ensures
        if exists|i: int| 0 <= i < adapter_files@.len() && !plain_relative((#[trigger] adapter_files@[i])@) {
            r matches Err(m) && m@ == bad_path_message()
        } else {
            r matches Ok(v) && strictly_ascending(views(v@)) && views(v@).to_set() == base_files().to_set() + views(
                adapter_files@,
            ).to_set()
        },
{
    proof {
        reveal_strlit("data/ssh.db");
        reveal_strlit("preferences.json");
    }
    let mut names: Vec<String> = Vec::new();
    let _ = insert_unique(&mut names, owned(IMPORT_MAP_FILE));
    let _ = insert_unique(&mut names, owned("data/ssh.db"));
    let _ = insert_unique(&mut names, owned("preferences.json"));
    proof {
        assert(views(Seq::<String>::empty()).to_set() =~= Set::empty());
        assert(views(names@).to_set() =~= base_files().to_set());
    }
    let mut i: usize = 0;
    while i < adapter_files.len()
        invariant
            i <= adapter_files@.len(),
            strictly_ascending(views(names@)),
            views(names@).to_set() == base_files().to_set() + views(adapter_files@.subrange(0, i as int)).to_set(),
        decreases adapter_files@.len() - i,
    {
        let ghost pre = views(adapter_files@.subrange(0, i as int));
        let _ = insert_unique(&mut names, adapter_files[i].clone());
        proof {
            assert(views(adapter_files@.subrange(0, i + 1)) =~= pre.push(adapter_files@[i as int]@));
            pre.lemma_push_to_set_commute(adapter_files@[i as int]@);
            assert(views(names@).to_set() =~= base_files().to_set() + views(adapter_files@.subrange(0, i + 1)).to_set());
        }
        i = i + 1;
    }
    assert(adapter_files@.subrange(0, adapter_files@.len() as int) =~= adapter_files@);
    let mut k: usize = 0;
    while k < adapter_files.len()
        invariant
            k <= adapter_files@.len(),
            forall|q: int| 0 <= q < k ==> plain_relative((#[trigger] adapter_files@[q])@),
        decreases adapter_files@.len() - k,
    {
        match validate_relative(adapter_files[k].as_str()) {
            Err(m) => {
                return Err(m);
            },
            Ok(()) => {},
        }
        k = k + 1;
    }
    Ok(names)
}

/// The names in ascending order without repeats.
pub fn sorted_names(names: &Vec<String>) -> (r: Vec<String>)
    ensures
        strictly_ascending(views(r@)),
        views(r@).to_set() == views(names@).to_set(),
{
    let mut out: Vec<String> = Vec::new();
    let mut i: usize = 0;
    proof {
        assert(views(out@).to_set() =~= Set::empty());
        assert(views(names@.subrange(0, 0)).to_set() =~= Set::empty());
    }
    while i < names.len()
        invariant
            i <= names@.len(),
            strictly_ascending(views(out@)),
            views(out@).to_set() == views(names@.subrange(0, i as int)).to_set(),
        decreases names@.len() - i,
    {
        let ghost pre = views(names@.subrange(0, i as int));
        let _ = insert_unique(&mut out, names[i].clone());
        proof {
            assert(views(names@.subrange(0, i + 1)) =~= pre.push(names@[i as int]@));
            pre.lemma_push_to_set_commute(names@[i as int]@);
        }
        i = i + 1;
    }
    assert(names@.subrange(0, names@.len() as int) =~= names@);
    out
}

} // verus!
