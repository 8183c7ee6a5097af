//! The import map (source lineage) of a space: which record of which
//! source space and dataset became which record here, so that importing
//! the same package again recognises what it already brought.
//!
//! One row per (source space, dataset, source id, target id); a source
//! record imported as a new copy several times has several rows.

use vstd::prelude::*;

use crate::context::{join_path, join_spec, space_root_spec};
use crate::text::{owned, str_eq, views};

verus! {

/// File name of the map under the space root.
pub const IMPORT_MAP_FILE: &'static str = "import-map.json";

/// Current format version of the map.
pub const MAP_VERSION: u32 = 1;

/// One source-to-target correspondence.
#[derive(Debug, PartialEq, Eq)]
pub struct LineageEntry {
    /// Source space uid (from the package header; only an identity key).
    pub source_space_id: String,
    /// Dataset name (such as `ssh.profiles`).
    pub dataset: String,
    /// Record id inside the package.
    pub source_id: String,
    /// Record id in this space.
    pub target_id: String,
    /// Packages that carried this correspondence.
    pub package_ids: Vec<String>,
    /// When it was last seen (RFC 3339).
    pub last_seen_at: String,
}

/// The whole map file.
#[derive(Debug, PartialEq, Eq)]
pub struct ImportMap {
    /// Format version (an unknown one reads as an empty map).
    pub version: u32,
    /// Every correspondence.
    pub entries: Vec<LineageEntry>,
}

/// `e` records source record `source_id` of `dataset` in `source_space`.
pub open spec fn same_source(e: LineageEntry, source_space: Seq<char>, dataset: Seq<char>, source_id: Seq<char>) -> bool {
    e.source_space_id@ == source_space && e.dataset@ == dataset && e.source_id@ == source_id
}

/// `e` has the row key (source space, dataset, source id, target id).
pub open spec fn same_key(
    e: LineageEntry,
    source_space: Seq<char>,
    dataset: Seq<char>,
    source_id: Seq<char>,
    target_id: Seq<char>,
) -> bool {
    same_source(e, source_space, dataset, source_id) && e.target_id@ == target_id
}

/// The rows of one source record, in order.
pub open spec fn matching(
    entries: Seq<LineageEntry>,
    source_space: Seq<char>,
    dataset: Seq<char>,
    source_id: Seq<char>,
) -> Seq<LineageEntry>
    decreases entries.len(),
{
    if entries.len() == 0 {
        Seq::empty()
    } else {
        let prev = matching(entries.drop_last(), source_space, dataset, source_id);
        if same_source(entries.last(), source_space, dataset, source_id) {
            prev.push(entries.last())
        } else {
            prev
        }
    }
}

/// `now` is the row `before` after one more sighting in `package` at `seen_at`:
/// same key, the package added unless already listed, the time refreshed.
pub open spec fn sighted(before: LineageEntry, now: LineageEntry, package: Seq<char>, seen_at: Seq<char>) -> bool {
    &&& now.source_space_id == before.source_space_id
    &&& now.dataset == before.dataset
    &&& now.source_id == before.source_id
    &&& now.target_id == before.target_id
    &&& views(now.package_ids@) == if views(before.package_ids@).contains(package) {
        views(before.package_ids@)
    } else {
        views(before.package_ids@).push(package)
    }
    &&& now.last_seen_at@ == seen_at
}

/// `after` is `before` with the sighting recorded: the first row with the
/// key is updated in place, or else a new row is appended.
pub open spec fn recorded(
    before: Seq<LineageEntry>,
    after: Seq<LineageEntry>,
    source_space: Seq<char>,
    dataset: Seq<char>,
    source_id: Seq<char>,
    target_id: Seq<char>,
    package: Seq<char>,
    seen_at: Seq<char>,
) -> bool {
    ||| exists|j: int|
        0 <= j < before.len() && same_key(#[trigger] before[j], source_space, dataset, source_id, target_id) && (forall|
            k: int,
        | 0 <= k < j ==> !same_key(#[trigger] before[k], source_space, dataset, source_id, target_id))
            && after.len() == before.len() && (forall|k: int| 0 <= k < before.len() && k != j ==> #[trigger] after[k] == before[k])
            && sighted(before[j], after[j], package, seen_at)
    ||| (forall|k: int| 0 <= k < before.len() ==> !same_key(#[trigger] before[k], source_space, dataset, source_id, target_id))
        && after.len() == before.len() + 1 && (forall|k: int| 0 <= k < before.len() ==> #[trigger] after[k] == before[k])
        && same_key(after.last(), source_space, dataset, source_id, target_id) && views(after.last().package_ids@) == seq![package]
        && after.last().last_seen_at@ == seen_at
}

impl Default for ImportMap {
    /// An empty map of the current version.
    fn default() -> (r: ImportMap)
        ensures
            r.version == MAP_VERSION,
            r.entries@.len() == 0,
    {
        ImportMap { version: MAP_VERSION, entries: Vec::new() }
    }
}

/// Whether `s` is among `items`.
fn contains_string(items: &Vec<String>, s: &str) -> (r: bool)
    ensures
        r == views(items@).contains(s@),
{
    let mut i: usize = 0;
    while i < items.len()
        invariant
            i <= items@.len(),
            forall|k: int| 0 <= k < i ==> views(items@)[k] != s@,
        decreases items@.len() - i,
    {
        if str_eq(items[i].as_str(), s) {
            assert(views(items@)[i as int] == s@);
            return true;
        }
        i = i + 1;
    }
    false
}

impl ImportMap {
    /// Every target of one source record (several when it was imported as
    /// a new copy more than once), in row order.
    pub fn lookup<'a>(&'a self, source_space_id: &str, dataset: &str, source_id: &str) -> (r: Vec<&'a LineageEntry>)
        ensures
            r@.map_values(|e: &LineageEntry| *e) == matching(self.entries@, source_space_id@, dataset@, source_id@),
    {
        let mut out: Vec<&'a LineageEntry> = Vec::new();
        let mut i: usize = 0;
        while i < self.entries.len()
            invariant
                i <= self.entries@.len(),
                out@.map_values(|e: &LineageEntry| *e) == matching(
                    self.entries@.subrange(0, i as int),
                    source_space_id@,
                    dataset@,
                    source_id@,
                ),
            decreases self.entries@.len() - i,
        {
            let e = &self.entries[i];
            let ghost before = out@;
            proof {
                let sub = self.entries@.subrange(0, i + 1);
                assert(sub.drop_last() =~= self.entries@.subrange(0, i as int));
                assert(sub.last() == self.entries@[i as int]);
            }
            if str_eq(e.source_space_id.as_str(), source_space_id) && str_eq(e.dataset.as_str(), dataset) && str_eq(
                e.source_id.as_str(),
                source_id,
            ) {
                out.push(e);
                proof {
                    assert(out@.map_values(|e: &LineageEntry| *e) =~= before.map_values(|e: &LineageEntry| *e).push(
                        *e,
                    ));
                }
            }
            i = i + 1;
        }
        assert(self.entries@.subrange(0, self.entries@.len() as int) =~= self.entries@);
        out
    }

    /// Records a sighting: a row with the same key gets the package added
    /// (once) and its time refreshed; otherwise a new row is added.
    pub fn record(
        &mut self,
        source_space_id: &str,
        dataset: &str,
        source_id: &str,
        target_id: &str,
        package_id: &str,
        seen_at: &str,
    )
        ensures
            final(self).version == old(self).version,
            recorded(
                old(self).entries@,
                final(self).entries@,
                source_space_id@,
                dataset@,
                source_id@,
                target_id@,
                package_id@,
                seen_at@,
            ),
    {
        let ghost before = self.entries@;
        let mut i: usize = 0;
        while i < self.entries.len()
            invariant
                i <= self.entries@.len(),
                self.entries@ == before,
                before == old(self).entries@,
                self.version == old(self).version,
                forall|k: int| 0 <= k < i ==> !same_key(#[trigger] before[k], source_space_id@, dataset@, source_id@, target_id@),
            decreases self.entries@.len() - i,
        {
            if str_eq(self.entries[i].source_space_id.as_str(), source_space_id) && str_eq(
                self.entries[i].dataset.as_str(),
                dataset,
            ) && str_eq(self.entries[i].source_id.as_str(), source_id) && str_eq(
                self.entries[i].target_id.as_str(),
                target_id,
            ) {
                let mut row = self.entries.remove(i);
                let ghost old_row = row;
                if !contains_string(&row.package_ids, package_id) {
                    let ghost ids = row.package_ids@;
                    row.package_ids.push(owned(package_id));
                    assert(views(row.package_ids@) =~= views(ids).push(package_id@));
                }
                row.last_seen_at = owned(seen_at);
                self.entries.insert(i, row);
                proof {
                    let j = i as int;
                    assert(old_row == before[j]);
                    assert(self.entries@ =~= before.update(j, row));
                    assert(sighted(before[j], self.entries@[j], package_id@, seen_at@));
                    assert(same_key(before[j], source_space_id@, dataset@, source_id@, target_id@));
                    assert(forall|k: int| 0 <= k < before.len() && k != j ==> #[trigger] self.entries@[k] == before[k]);
                }
                return;
            }
            i = i + 1;
        }
        let mut ids: Vec<String> = Vec::new();
        ids.push(owned(package_id));
        self.entries.push(
            LineageEntry {
                source_space_id: owned(source_space_id),
                dataset: owned(dataset),
                source_id: owned(source_id),
                target_id: owned(target_id),
                package_ids: ids,
                last_seen_at: owned(seen_at),
            },
        );
        assert(views(ids@) =~= seq![package_id@]);
    }
}

/// After a sighting is recorded, the source record leads to that target and
/// the row lists the package; the number of rows grows only for a new key.
pub proof fn recorded_sighting_is_found(
    before: Seq<LineageEntry>,
    after: Seq<LineageEntry>,
    source_space: Seq<char>,
    dataset: Seq<char>,
    source_id: Seq<char>,
    target_id: Seq<char>,
    package: Seq<char>,
    seen_at: Seq<char>,
)
    requires
        recorded(before, after, source_space, dataset, source_id, target_id, package, seen_at),
    ensures
        exists|k: int|
            0 <= k < after.len() && same_key(#[trigger] after[k], source_space, dataset, source_id, target_id) && views(
                after[k].package_ids@,
            ).contains(package) && after[k].last_seen_at@ == seen_at,
        (exists|k: int| 0 <= k < before.len() && same_key(#[trigger] before[k], source_space, dataset, source_id, target_id))
            ==> after.len() == before.len(),
{
    if exists|j: int|
        0 <= j < before.len() && same_key(#[trigger] before[j], source_space, dataset, source_id, target_id) && (forall|
            k: int,
        | 0 <= k < j ==> !same_key(#[trigger] before[k], source_space, dataset, source_id, target_id))
            && after.len() == before.len() && (forall|k: int| 0 <= k < before.len() && k != j ==> #[trigger] after[k] == before[k])
            && sighted(before[j], after[j], package, seen_at) {
        let j = choose|j: int|
            0 <= j < before.len() && same_key(#[trigger] before[j], source_space, dataset, source_id, target_id) && (forall|
                k: int,
            | 0 <= k < j ==> !same_key(#[trigger] before[k], source_space, dataset, source_id, target_id))
                && after.len() == before.len() && (forall|k: int| 0 <= k < before.len() && k != j ==> #[trigger] after[k]
                == before[k]) && sighted(before[j], after[j], package, seen_at);
        assert(same_key(after[j], source_space, dataset, source_id, target_id));
        if !views(before[j].package_ids@).contains(package) {
            assert(views(after[j].package_ids@).last() == package);
            assert(views(after[j].package_ids@)[views(after[j].package_ids@).len() - 1] == package);
        }
    } else {
        let k = after.len() - 1;
        assert(after[k] == after.last());
        assert(views(after[k].package_ids@)[0] == package);
    }
}

/// A row by its text: (source space, dataset, source id, target id,
/// packages, last seen).
pub open spec fn entry_view(e: LineageEntry) -> (Seq<char>, Seq<char>, Seq<char>, Seq<char>, Seq<Seq<char>>, Seq<char>) {
    (e.source_space_id@, e.dataset@, e.source_id@, e.target_id@, views(e.package_ids@), e.last_seen_at@)
}

/// The rows of a map by their text.
pub open spec fn entry_views(s: Seq<LineageEntry>) -> Seq<(Seq<char>, Seq<char>, Seq<char>, Seq<char>, Seq<Seq<char>>, Seq<char>)> {
    s.map_values(|e: LineageEntry| entry_view(e))
}

/// `j` is the first row with the key, and it lists the package and was last
/// seen at `seen_at`.
pub open spec fn first_row_sighted(
    s: Seq<LineageEntry>,
    source_space: Seq<char>,
    dataset: Seq<char>,
    source_id: Seq<char>,
    target_id: Seq<char>,
    package: Seq<char>,
    seen_at: Seq<char>,
    j: int,
) -> bool {
    &&& 0 <= j < s.len()
    &&& same_key(s[j], source_space, dataset, source_id, target_id)
    &&& forall|k: int| 0 <= k < j ==> !same_key(#[trigger] s[k], source_space, dataset, source_id, target_id)
    &&& views(s[j].package_ids@).contains(package)
    &&& s[j].last_seen_at@ == seen_at
}

/// After a recording, the first row with the key is the one it sighted.
proof fn lemma_recorded_first_row(
    before: Seq<LineageEntry>,
    after: Seq<LineageEntry>,
    source_space: Seq<char>,
    dataset: Seq<char>,
    source_id: Seq<char>,
    target_id: Seq<char>,
    package: Seq<char>,
    seen_at: Seq<char>,
) -> (j: int)
    requires
        recorded(before, after, source_space, dataset, source_id, target_id, package, seen_at),
    ensures
        first_row_sighted(after, source_space, dataset, source_id, target_id, package, seen_at, j),
{
    if exists|j: int|
        0 <= j < before.len() && same_key(#[trigger] before[j], source_space, dataset, source_id, target_id) && (forall|
            k: int,
        | 0 <= k < j ==> !same_key(#[trigger] before[k], source_space, dataset, source_id, target_id))
            && after.len() == before.len() && (forall|k: int| 0 <= k < before.len() && k != j ==> #[trigger] after[k] == before[k])
            && sighted(before[j], after[j], package, seen_at) {
        let j = choose|j: int|
            0 <= j < before.len() && same_key(#[trigger] before[j], source_space, dataset, source_id, target_id) && (forall|
                k: int,
            | 0 <= k < j ==> !same_key(#[trigger] before[k], source_space, dataset, source_id, target_id))
                && after.len() == before.len() && (forall|k: int| 0 <= k < before.len() && k != j ==> #[trigger] after[k]
                == before[k]) && sighted(before[j], after[j], package, seen_at);
        assert forall|k: int| 0 <= k < j implies !same_key(#[trigger] after[k], source_space, dataset, source_id, target_id) by {
            assert(after[k] == before[k]);
        }
        if !views(before[j].package_ids@).contains(package) {
            assert(views(after[j].package_ids@)[views(after[j].package_ids@).len() - 1] == package);
        }
        j
    } else {
        let k = after.len() - 1;
        assert(after[k] == after.last());
        assert(views(after[k].package_ids@)[0] == package);
        assert forall|i: int| 0 <= i < k implies !same_key(#[trigger] after[i], source_space, dataset, source_id, target_id) by {
            assert(after[i] == before[i]);
        }
        k
    }
}

/// Recording the same sighting again (same key, package and time) leaves
/// the map as the first recording left it.
pub proof fn recording_again_changes_nothing(
    m0: Seq<LineageEntry>,
    m1: Seq<LineageEntry>,
    m2: Seq<LineageEntry>,
    source_space: Seq<char>,
    dataset: Seq<char>,
    source_id: Seq<char>,
    target_id: Seq<char>,
    package: Seq<char>,
    seen_at: Seq<char>,
)
    requires
        recorded(m0, m1, source_space, dataset, source_id, target_id, package, seen_at),
        recorded(m1, m2, source_space, dataset, source_id, target_id, package, seen_at),
    ensures
        entry_views(m2) == entry_views(m1),
{
    let j = lemma_recorded_first_row(m0, m1, source_space, dataset, source_id, target_id, package, seen_at);
    if exists|i: int|
        0 <= i < m1.len() && same_key(#[trigger] m1[i], source_space, dataset, source_id, target_id) && (forall|
            k: int,
        | 0 <= k < i ==> !same_key(#[trigger] m1[k], source_space, dataset, source_id, target_id)) && m2.len() == m1.len()
            && (forall|k: int| 0 <= k < m1.len() && k != i ==> #[trigger] m2[k] == m1[k]) && sighted(m1[i], m2[i], package, seen_at) {
        let i = choose|i: int|
            0 <= i < m1.len() && same_key(#[trigger] m1[i], source_space, dataset, source_id, target_id) && (forall|
                k: int,
            | 0 <= k < i ==> !same_key(#[trigger] m1[k], source_space, dataset, source_id, target_id)) && m2.len() == m1.len()
                && (forall|k: int| 0 <= k < m1.len() && k != i ==> #[trigger] m2[k] == m1[k]) && sighted(m1[i], m2[i], package, seen_at);
        if i < j {
            assert(!same_key(m1[i], source_space, dataset, source_id, target_id));
        }
        if i > j {
            assert(!same_key(m1[j], source_space, dataset, source_id, target_id));
        }
        assert(entry_view(m2[i]) == entry_view(m1[i]));
        assert(entry_views(m2) =~= entry_views(m1));
    } else {
        assert(!same_key(m1[j], source_space, dataset, source_id, target_id));
    }
}

/// Path of the map: `<device root>/spaces/<uid>/import-map.json`.
pub fn map_path(device_root: &str, space_id: &str) -> (r: String)
    ensures
        r@ == join_spec(space_root_spec(device_root@, space_id@), IMPORT_MAP_FILE@),
{
    let spaces = join_path(device_root, "spaces");
    let root = join_path(spaces.as_str(), space_id);
    join_path(root.as_str(), IMPORT_MAP_FILE)
}

} // verus!
