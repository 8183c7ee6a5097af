//! The process selection of the resource snapshot: the application's own
//! processes are the root and everything whose parent chain reaches it; a
//! parent link only counts when the parent started no later than the child
//! (a reused process id must not inherit an old parent). Reading the
//! operating system's process table and counters stays with the caller.

use vstd::prelude::*;
use std::collections::BTreeSet;

verus! {

broadcast use vstd::std_specs::btree::group_btree_axioms;

/// `set` is closed under the child-of relation given by `(pid, parent)` rows.
pub open spec fn closed_under_children(set: Set<u32>, parents: Seq<(u32, u32)>) -> bool {
    forall|i: int| 0 <= i < parents.len() && #[trigger] set.contains(parents[i].1) ==> set.contains(parents[i].0)
}

/// `set` is the least set that contains `root` and is closed under the rows:
/// exactly `root` and the processes whose parent chain reaches `root`.
pub open spec fn is_process_tree(set: Set<u32>, root: u32, parents: Seq<(u32, u32)>) -> bool {
    &&& set.contains(root)
    &&& closed_under_children(set, parents)
    &&& forall|other: Set<u32>|
        #[trigger] closed_under_children(other, parents) && other.contains(root) ==> set.subset_of(other)
}

/// Every process id that occurs as a child, plus the root.
pub open spec fn candidate_ids(root: u32, parents: Seq<(u32, u32)>) -> Set<u32> {
    parents.map_values(|row: (u32, u32)| row.0).to_set().insert(root)
}

/// The process tree rooted at `root`: the root and all its descendants
/// (rows may come in any order; processes of other applications stay out).
pub fn descendants(root: u32, parents: &[(u32, u32)]) -> (found: BTreeSet<u32>)
    ensures
        is_process_tree(found@, root, parents@),
{
    let ghost cand = candidate_ids(root, parents@);
    let ghost bound: int = parents@.len() as int + 1;
    proof {
        let pids = parents@.map_values(|row: (u32, u32)| row.0);
        pids.lemma_cardinality_of_set();
        assert(pids.len() == parents@.len());
        assert(cand.finite());
        assert(cand.len() <= bound);
    }
    let mut found: BTreeSet<u32> = BTreeSet::new();
    found.insert(root);
    loop
        invariant
            found@.contains(root),
            found@.subset_of(cand),
            cand.finite(),
            cand.len() <= bound,
            cand == candidate_ids(root, parents@),
            forall|other: Set<u32>|
                #[trigger] closed_under_children(other, parents@) && other.contains(root)
                    ==> found@.subset_of(other),
        decreases bound - found@.len(),
    {
        let ghost before = found@;
        proof {
            vstd::set_lib::lemma_len_subset(found@, cand);
        }
        let mut changed = false;
        let mut i: usize = 0;
        while i < parents.len()
            invariant
                i <= parents@.len(),
                found@.contains(root),
                found@.subset_of(cand),
                before.subset_of(found@),
                cand == candidate_ids(root, parents@),
                !changed ==> found@ == before,
                changed ==> found@.len() > before.len(),
                before.finite(),
                cand.finite(),
                !changed ==> forall|k: int| 0 <= k < i && #[trigger] found@.contains(parents@[k].1) ==> found@.contains(parents@[k].0),
                forall|other: Set<u32>|
                    #[trigger] closed_under_children(other, parents@) && other.contains(root)
                        ==> found@.subset_of(other),
            decreases parents@.len() - i,
        {
            let (pid, parent) = parents[i];
            if found.contains(&parent) {
                proof {
                    let pids = parents@.map_values(|row: (u32, u32)| row.0);
                    assert(pids[i as int] == pid);
                    assert(pids.to_set().contains(pid));
                    assert(cand.contains(pid));
                    vstd::set_lib::lemma_len_subset(found@, cand);
                    vstd::set_lib::lemma_len_subset(before, found@);
                }
                let ghost prev = found@;
                let fresh = found.insert(pid);
                proof {
                    assert forall|other: Set<u32>|
                        #[trigger] closed_under_children(other, parents@) && other.contains(root)
                            implies found@.subset_of(other) by {
                        assert(prev.subset_of(other));
                        assert(other.contains(parents@[i as int].1));
                    }
                    if fresh {
                        assert(found@.len() == prev.len() + 1);
                    }
                    if !fresh {
                        assert(found@ =~= prev);
                    }
                }
                if fresh {
                    changed = true;
                }
            }
            i = i + 1;
        }
        if !changed {
            assert(closed_under_children(found@, parents@));
            return found;
        }
        proof {
            vstd::set_lib::lemma_len_subset(found@, cand);
        }
    }
}

/// The start time of `pid` among the rows (the last row of that pid).
pub open spec fn start_of(rows: Seq<(u32, u32, u64)>, pid: u32) -> Option<u64>
    decreases rows.len(),
{
    if rows.len() == 0 {
        None
    } else if rows.last().0 == pid {
        Some(rows.last().2)
    } else {
        start_of(rows.drop_last(), pid)
    }
}

/// A row's parent link counts: the parent is among the rows and started no
/// later than the row.
pub open spec fn attributable(rows: Seq<(u32, u32, u64)>, row: (u32, u32, u64)) -> bool {
    start_of(rows, row.1) matches Some(p) && p <= row.2
}

/// The (pid, parent) links that count, in row order.
pub open spec fn attributable_links(rows: Seq<(u32, u32, u64)>, k: int) -> Seq<(u32, u32)>
    decreases k,
{
    if k <= 0 {
        Seq::empty()
    } else {
        let prev = attributable_links(rows, k - 1);
        let row = rows[k - 1];
        if attributable(rows, row) {
            prev.push((row.0, row.1))
        } else {
            prev
        }
    }
}

/// The start time of `pid` among the rows, by search from the end.
fn find_start(rows: &[(u32, u32, u64)], pid: u32) -> (r: Option<u64>)
    ensures
        r == start_of(rows@, pid),
{
    let mut k: usize = rows.len();
    assert(rows@.subrange(0, k as int) =~= rows@);
    while k > 0
        invariant
            k <= rows@.len(),
            start_of(rows@, pid) == start_of(rows@.subrange(0, k as int), pid),
        decreases k,
    {
        proof {
            assert(rows@.subrange(0, k as int).drop_last() =~= rows@.subrange(0, k - 1));
        }
        if rows[k - 1].0 == pid {
            return Some(rows[k - 1].2);
        }
        k = k - 1;
    }
    None
}

/// The parent links of `(pid, parent, started)` rows whose parent is among
/// the rows and started no later than the child, in row order.
pub fn attributable_rows(rows: &[(u32, u32, u64)]) -> (r: Vec<(u32, u32)>)
    ensures
        r@ == attributable_links(rows@, rows@.len() as int),
{
    let mut out: Vec<(u32, u32)> = Vec::new();
    let mut i: usize = 0;
    while i < rows.len()
        invariant
            i <= rows@.len(),
            out@ == attributable_links(rows@, i as int),
        decreases rows@.len() - i,
    {
        let (pid, parent, started) = rows[i];
        match find_start(rows, parent) {
            Some(p) => {
                if p <= started {
                    out.push((pid, parent));
                }
            },
            None => {},
        }
        i = i + 1;
    }
    out
}

/// Kind of a sampled process.
pub open spec fn process_kind_spec(pid: u32, root: u32, webview_name: bool) -> Seq<char> {
    if pid == root {
        "main"@
    } else if webview_name {
        "webview"@
    } else {
        "child"@
    }
}

/// ASCII letters folded to lower case.
pub open spec fn ascii_lower(c: char) -> char {
    if 'A' <= c && c <= 'Z' {
        ((c as u32) + 32) as char
    } else {
        c
    }
}

/// Equal ignoring ASCII case.
pub open spec fn eq_ignore_ascii_case(a: Seq<char>, b: Seq<char>) -> bool {
    a.len() == b.len() && forall|i: int| 0 <= i < a.len() ==> ascii_lower(#[trigger] a[i]) == ascii_lower(b[i])
}

/// One character folded to lower case.
fn lower(c: char) -> (r: char)
    ensures
        r == ascii_lower(c),
{
    if 'A' <= c && c <= 'Z' {
        let v = (c as u32) + 32;
        proof {
            assert(v <= 0x7f);
        }
        char_of(v)
    } else {
        c
    }
}

/// The character of an ASCII code.
fn char_of(v: u32) -> (r: char)
    requires
        v <= 0x7f,
    ensures
        r == v as char,
{
    let b = v as u8;
    b as char
}

/// Whether a process image name is the WebView2 host (`msedgewebview2.exe`, any case).
pub fn is_webview_name(name: &str) -> (r: bool)
    ensures
        r == eq_ignore_ascii_case(name@, "msedgewebview2.exe"@),
{
    let target = "msedgewebview2.exe";
    proof {
        reveal_strlit("msedgewebview2.exe");
    }
    let n = name.unicode_len();
    if n != target.unicode_len() {
        return false;
    }
    let mut i: usize = 0;
    while i < n
        invariant
            n == name@.len(),
            n == target@.len(),
            target@ == "msedgewebview2.exe"@,
            i <= n,
            forall|k: int| 0 <= k < i ==> ascii_lower(#[trigger] name@[k]) == ascii_lower(target@[k]),
        decreases n - i,
    {
        if lower(name.get_char(i)) != lower(target.get_char(i)) {
            return false;
        }
        i = i + 1;
    }
    true
}

/// The kind shown for a sampled process: the application's own process is
/// `main`, the WebView2 host is `webview`, anything else `child`.
pub fn process_kind(pid: u32, root: u32, name: &str) -> (r: &'static str)
    ensures
        r@ == process_kind_spec(pid, root, eq_ignore_ascii_case(name@, "msedgewebview2.exe"@)),
{
    if pid == root {
        "main"
    } else if is_webview_name(name) {
        "webview"
    } else {
        "child"
    }
}

/// Processes of the tree that could not be read (they exited, or access
/// changed): the candidates minus the processes read, never below zero.
pub fn missing_processes(candidates: usize, read: usize) -> (r: usize)
    ensures
        r == if candidates >= read { candidates - read } else { 0 },
{
    candidates.saturating_sub(read)
}

} // verus!
