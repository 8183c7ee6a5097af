//! Pre-import snapshots: the stores an import is about to change are copied to
//! `<device root>/backups/import-<stamp>-<suffix>/` with a `snapshot.json`
//! manifest; the newest few are kept and one of them can be restored into the
//! space it was taken from. The copying is done by the caller; this module
//! orders the snapshots, picks the ones to prune, lists a space's snapshots
//! and checks a restore request.

use vstd::prelude::*;

use crate::context::{join_path, join_spec};
use crate::text::{
    contains_char, is_stable_order, key_at, key_views, keyed_lt, owned, seq_lt, stable_order, str_eq,
};

verus! {

/// Directory holding the snapshots, under the device root.
pub const BACKUPS_DIR: &'static str = "backups";

/// Manifest file inside a snapshot directory.
pub const SNAPSHOT_MANIFEST_FILE: &'static str = "snapshot.json";

/// Snapshots kept; older ones are pruned.
pub const KEEP_BACKUPS: usize = 3;

/// Manifest of a snapshot: which space it belongs to and which files it holds.
#[derive(Debug, PartialEq, Eq)]
pub struct SnapshotManifest {
    /// Id of the space the files were copied from.
    pub space_id: String,
    /// When it was taken (RFC 3339).
    pub created_at: String,
    /// Files copied, relative to the space root (such as `data/ssh.db`).
    pub files: Vec<String>,
}

/// A snapshot as the settings page lists it.
#[derive(Debug, PartialEq, Eq)]
pub struct BackupSummary {
    /// Snapshot directory name (the restore handle).
    pub dir: String,
    /// Space it belongs to.
    pub space_id: String,
    /// When it was taken.
    pub created_at: String,
    /// Files it holds.
    pub files: Vec<String>,
}

/// A snapshot found on disk: its directory name and its manifest.
pub type FoundSnapshot = (String, SnapshotManifest);

/// The snapshot directory set under a device root.
pub fn backups_dir(device_root: &str) -> (r: String)
    ensures
        r@ == join_spec(device_root@, BACKUPS_DIR@),
{
    join_path(device_root, BACKUPS_DIR)
}

/// Sort key of a snapshot: (creation time, directory name).
pub open spec fn snapshot_keys(found: Seq<FoundSnapshot>) -> Seq<(Seq<char>, Seq<char>)> {
    found.map_values(|s: FoundSnapshot| (s.1.created_at@, s.0@))
}

/// Position `i1` with key `k1` comes before position `i2` with key `k2` when
/// listing newest first: the later creation time first, then the greater
/// directory name, then the earlier position.
pub open spec fn newer_first(k1: (Seq<char>, Seq<char>), i1: int, k2: (Seq<char>, Seq<char>), i2: int) -> bool {
    seq_lt(k2.0, k1.0) || (k1.0 == k2.0 && (seq_lt(k2.1, k1.1) || (k1.1 == k2.1 && i1 < i2)))
}

/// `order` lists every position of `keys` once, newest first.
pub open spec fn is_newest_first(keys: Seq<(Seq<char>, Seq<char>)>, order: Seq<usize>) -> bool {
    &&& order.len() == keys.len()
    &&& forall|k: int| 0 <= k < order.len() ==> order[k] < keys.len()
    &&& forall|j: usize| j < keys.len() ==> #[trigger] order.contains(j)
    &&& forall|a: int, b: int|
        #![trigger order[a], order[b]]
        0 <= a < b < order.len() ==> newer_first(
            keys[order[a] as int],
            order[a] as int,
            keys[order[b] as int],
            order[b] as int,
        )
}

/// Field-by-field copy of a list of strings.
fn copy_strings(v: &Vec<String>) -> (r: Vec<String>)
    ensures
        r@ == v@,
{
    let mut r: Vec<String> = Vec::new();
    let mut i: usize = 0;
    while i < v.len()
        invariant
            i <= v@.len(),
            r@ == v@.subrange(0, i as int),
        decreases v@.len() - i,
    {
        r.push(v[i].clone());
        proof {
            assert(v@.subrange(0, i + 1) =~= v@.subrange(0, i as int).push(v@[i as int]));
        }
        i = i + 1;
    }
    assert(v@.subrange(0, v@.len() as int) =~= v@);
    r
}

/// Field-by-field copy of a snapshot entry.
fn copy_found(s: &FoundSnapshot) -> (c: FoundSnapshot)
    ensures
        c.0 == s.0,
        c.1.space_id == s.1.space_id,
        c.1.created_at == s.1.created_at,
        c.1.files@ == s.1.files@,
{
    (
        s.0.clone(),
        SnapshotManifest {
            space_id: s.1.space_id.clone(),
            created_at: s.1.created_at.clone(),
            files: copy_strings(&s.1.files),
        },
    )
}

/// The positions of `found`, newest first (later creation time first; the
/// directory name, which carries the time stamp and a random suffix, breaks
/// ties; equal keys keep their listing order).
pub fn newest_first_order(found: &Vec<FoundSnapshot>) -> (order: Vec<usize>)
    ensures
        is_newest_first(snapshot_keys(found@), order@),
{
    let n = found.len();
    // keys of the positions in reverse, so that an ascending stable order read
    // backwards is a descending one that keeps equal keys in listing order
    let mut rev: Vec<(String, String)> = Vec::new();
    let mut i: usize = 0;
    while i < n
        invariant
            n == found@.len(),
            i <= n,
            rev@.len() == i,
            forall|k: int|
                0 <= k < i ==> #[trigger] key_views(rev@)[k] == snapshot_keys(found@)[n - 1 - k],
        decreases n - i,
    {
        let j = n - 1 - i;
        let ghost old_rev = rev@;
        rev.push((found[j].1.created_at.clone(), found[j].0.clone()));
        proof {
            assert forall|k: int| 0 <= k < i + 1 implies #[trigger] key_views(rev@)[k] == snapshot_keys(
                found@,
            )[n - 1 - k] by {
                assert(key_views(rev@)[k] == (rev@[k].0@, rev@[k].1@));
                assert(snapshot_keys(found@)[n - 1 - k] == (found@[n - 1 - k].1.created_at@, found@[n - 1 - k].0@));
                if k < i {
                    assert(rev@[k] == old_rev[k]);
                    assert(key_views(old_rev)[k] == (old_rev[k].0@, old_rev[k].1@));
                }
            }
        }
        i = i + 1;
    }
    let asc = stable_order(&rev);
    let ghost keys = snapshot_keys(found@);
    let ghost rk = key_views(rev@);
    assert(is_stable_order(rk, asc@));
    let mut order: Vec<usize> = Vec::new();
    let mut k: usize = 0;
    while k < n
        invariant
            n == found@.len(),
            keys == snapshot_keys(found@),
            rk == key_views(rev@),
            rk.len() == n,
            forall|q: int| 0 <= q < n ==> #[trigger] rk[q] == keys[n - 1 - q],
            is_stable_order(rk, asc@),
            k <= n,
            order@.len() == k,
            forall|q: int| 0 <= q < k ==> #[trigger] order@[q] == n - 1 - asc@[n - 1 - q],
        decreases n - k,
    {
        let p = asc[n - 1 - k];
        order.push(n - 1 - p);
        k = k + 1;
    }
    proof {
        assert forall|a: int, b: int|
            #![trigger order@[a], order@[b]]
            0 <= a < b < order@.len() implies newer_first(
                keys[order@[a] as int],
                order@[a] as int,
                keys[order@[b] as int],
                order@[b] as int,
            ) by {
            let ra = n - 1 - a;
            let rb = n - 1 - b;
            assert(asc@[rb] == asc@[rb] && asc@[ra] == asc@[ra]);
            assert(keyed_lt(
                key_at(rk, asc@[rb] as int),
                asc@[rb] as int,
                key_at(rk, asc@[ra] as int),
                asc@[ra] as int,
            ));
            assert(rk[asc@[rb] as int] == keys[order@[b] as int]);
            assert(rk[asc@[ra] as int] == keys[order@[a] as int]);
        }
        assert forall|j: usize| j < keys.len() implies #[trigger] order@.contains(j) by {
            let t = (n - 1 - j) as usize;
            assert(asc@.contains(t));
            let q = choose|q: int| 0 <= q < asc@.len() && asc@[q] == t;
            assert(order@[n - 1 - q] == n - 1 - asc@[q]);
        }
    }
    order
}

/// The snapshots, newest first: `r[k]` is a copy of `found[order[k]]` for the
/// newest-first order of their (creation time, directory name) keys.
pub fn newest_first(found: &Vec<FoundSnapshot>) -> (r: Vec<FoundSnapshot>)
    ensures
        exists|order: Seq<usize>|
            is_newest_first(snapshot_keys(found@), order) && r@.len() == order.len() && forall|k: int|
                0 <= k < order.len() ==> {
                    let s = #[trigger] r@[k];
                    let t = found@[order[k] as int];
                    s.0 == t.0 && s.1.space_id == t.1.space_id && s.1.created_at == t.1.created_at
                        && s.1.files@ == t.1.files@
                },
{
    let order = newest_first_order(found);
    let mut r: Vec<FoundSnapshot> = Vec::new();
    let mut k: usize = 0;
    while k < order.len()
        invariant
            k <= order@.len(),
            order@.len() == found@.len(),
            forall|q: int| 0 <= q < order@.len() ==> order@[q] < found@.len(),
            r@.len() == k,
            forall|q: int|
                0 <= q < k ==> {
                    let s = #[trigger] r@[q];
                    let t = found@[order@[q] as int];
                    s.0 == t.0 && s.1.space_id == t.1.space_id && s.1.created_at == t.1.created_at
                        && s.1.files@ == t.1.files@
                },
        decreases order@.len() - k,
    {
        r.push(copy_found(&found[order[k]]));
        k = k + 1;
    }
    r
}

/// The directories to remove: every snapshot after the newest
/// `KEEP_BACKUPS`, in the order given.
pub fn prune_victims(newest: &Vec<FoundSnapshot>) -> (r: Vec<String>)
    ensures
        newest@.len() <= KEEP_BACKUPS ==> r@.len() == 0,
        newest@.len() > KEEP_BACKUPS ==> r@.len() == newest@.len() - KEEP_BACKUPS,
        forall|k: int| 0 <= k < r@.len() ==> #[trigger] r@[k] == newest@[k + KEEP_BACKUPS].0,
{
    let mut r: Vec<String> = Vec::new();
    let mut i: usize = KEEP_BACKUPS;
    while i < newest.len()
        invariant
            KEEP_BACKUPS <= i,
            newest@.len() > KEEP_BACKUPS ==> i <= newest@.len(),
            newest@.len() <= KEEP_BACKUPS ==> r@.len() == 0,
            r@.len() == i - KEEP_BACKUPS,
            forall|k: int| 0 <= k < r@.len() ==> #[trigger] r@[k] == newest@[k + KEEP_BACKUPS].0,
        decreases newest@.len() - i,
    {
        r.push(newest[i].0.clone());
        i = i + 1;
    }
    r
}

/// The snapshots of `space_id`, in the order given.
pub open spec fn of_space(found: Seq<FoundSnapshot>, space_id: Seq<char>) -> Seq<FoundSnapshot> {
    found.filter(|s: FoundSnapshot| s.1.space_id@ == space_id)
}

/// Lists the snapshots of `space_id` (others are left out), in the order given.
pub fn backup_summaries(newest: &Vec<FoundSnapshot>, space_id: &str) -> (r: Vec<BackupSummary>)
    ensures
        r@.len() == of_space(newest@, space_id@).len(),
        forall|k: int|
            0 <= k < r@.len() ==> {
                let b = #[trigger] r@[k];
                let s = of_space(newest@, space_id@)[k];
                b.dir == s.0 && b.space_id == s.1.space_id && b.created_at == s.1.created_at
                    && b.files@ == s.1.files@
            },
{
    let mut r: Vec<BackupSummary> = Vec::new();
    let mut i: usize = 0;
    while i < newest.len()
        invariant
            i <= newest@.len(),
            r@.len() == of_space(newest@.subrange(0, i as int), space_id@).len(),
            forall|k: int|
                0 <= k < r@.len() ==> {
                    let b = #[trigger] r@[k];
                    let s = of_space(newest@.subrange(0, i as int), space_id@)[k];
                    b.dir == s.0 && b.space_id == s.1.space_id && b.created_at == s.1.created_at
                        && b.files@ == s.1.files@
                },
        decreases newest@.len() - i,
    {
        proof {
            reveal_with_fuel(Seq::<_>::filter, 1);
            assert(newest@.subrange(0, i + 1).drop_last() =~= newest@.subrange(0, i as int));
        }
        if str_eq(newest[i].1.space_id.as_str(), space_id) {
            let c = copy_found(&newest[i]);
            r.push(BackupSummary { dir: c.0, space_id: c.1.space_id, created_at: c.1.created_at, files: c.1.files });
        }
        i = i + 1;
    }
    assert(newest@.subrange(0, newest@.len() as int) =~= newest@);
    r
}

/// The first position whose directory name is `dir`.
pub open spec fn first_named(found: Seq<FoundSnapshot>, dir: Seq<char>) -> Option<int> {
    if exists|i: int| 0 <= i < found.len() && found[i].0@ == dir {
        Some(choose|i: int| 0 <= i < found.len() && found[i].0@ == dir && forall|j: int| 0 <= j < i ==> found[j].0@ != dir)
    } else {
        None
    }
}

/// A snapshot name that is empty or holds a path separator.
pub open spec fn bad_snapshot_name(dir: Seq<char>) -> bool {
    dir.len() == 0 || dir.contains('/') || dir.contains('\\')
}

/// Checks a restore request for snapshot directory `dir` from space
/// `space_id` against the snapshots on disk: the name must be a single
/// non-empty component, the snapshot must exist and belong to that space.
/// On success, the position of the snapshot.
pub fn restore_check(dir: &str, found: &Vec<FoundSnapshot>, space_id: &str) -> (r: Result<usize, String>)
    ensures
        if bad_snapshot_name(dir@) {
            r matches Err(m) && m@ == "快照目录名非法"@
        } else {
            match first_named(found@, dir@) {
                None => r matches Err(m) && m@ == "快照不存在（可能已被清理）"@,
                Some(i) => if found@[i].1.space_id@ == space_id@ {
                    r == Ok::<usize, String>(i as usize)
                } else {
                    r matches Err(m) && m@ == "该快照属于别的空间，拒绝还原到当前空间"@
                },
            }
        },
{
    if dir.unicode_len() == 0 || contains_char(dir, '/') || contains_char(dir, '\\') {
        return Err(owned("快照目录名非法"));
    }
    let mut i: usize = 0;
    while i < found.len()
        invariant
            i <= found@.len(),
            !bad_snapshot_name(dir@),
            forall|j: int| 0 <= j < i ==> found@[j].0@ != dir@,
        decreases found@.len() - i,
    {
        if str_eq(found[i].0.as_str(), dir) {
            proof {
                assert(0 <= i < found@.len() && found@[i as int].0@ == dir@ && forall|j: int|
                    0 <= j < i ==> found@[j].0@ != dir@);
                let w = choose|w: int|
                    0 <= w < found@.len() && found@[w].0@ == dir@ && forall|j: int| 0 <= j < w ==> found@[j].0@ != dir@;
                if w > i {
                    assert(found@[i as int].0@ != dir@);
                }
                assert(w == i);
            }
            if str_eq(found[i].1.space_id.as_str(), space_id) {
                return Ok(i);
            }
            return Err(owned("该快照属于别的空间，拒绝还原到当前空间"));
        }
        i = i + 1;
    }
    Err(owned("快照不存在（可能已被清理）"))
}

} // verus!
