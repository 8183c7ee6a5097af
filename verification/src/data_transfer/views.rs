//! What the data commands hand back to the front end: the result of an
//! inspection, of a plan, of a commit (the import report), and of a space
//! switch. Everything is taken from the plan, the manifest and the catalog;
//! nothing secret and no path of the space is included.

use vstd::prelude::*;

use crate::data_transfer::datasets::{plan_mode_name, ImportMode};
use crate::data_transfer::import_checks::DuplicateHint;
use crate::data_transfer::import_plan::{pending_texts, ImportPlan, ImportPlanItem};
use crate::data_transfer::manifest::{hex_spec, sha256_of, PackageManifest};
use crate::data_transfer::revision::{revision_bytes, storage_revision, RevisionInput};
use crate::data_transfer::package_view::{
    copy_strings, default_import_selection, importable_names, package_summary, shows_block, PackageSummaryView,
};
use crate::data_transfer::storage_files::strictly_ascending;
use crate::data_transfer::types::{DatasetDescriptor, ImportSelection};
use crate::text::{lemma_seq_lt_irreflexive, lemma_seq_lt_transitive, lemma_seq_lt_trichotomy, owned, seq_lt, str_eq, str_lt, views};

verus! {

/// The report of a finished import.
#[derive(Debug, PartialEq, Eq)]
pub struct ImportReport {
    /// Id of the space written.
    pub space_id: String,
    /// Name of the space written.
    pub space_name: String,
    /// Package id.
    pub package_id: String,
    /// Source space id (shown only).
    pub source_space_id: String,
    /// Source space name (shown only).
    pub source_space_name: String,
    /// When the import finished (RFC 3339).
    pub imported_at: String,
    /// Records written per dataset.
    pub counts: Vec<(String, usize)>,
    /// Records the package declared per dataset.
    pub declared_counts: Vec<(String, usize)>,
    /// What the user must complete (references that did not come along).
    pub pending: Vec<String>,
    /// Datasets not brought in.
    pub excluded: Vec<String>,
}

/// What an inspection shows.
#[derive(Debug)]
pub struct ImportInspectResult {
    /// Id of the inspection (planning and commit refer to it).
    pub inspect_id: String,
    /// The package summary.
    pub summary: PackageSummaryView,
    /// The default selection.
    pub defaults: ImportSelection,
    /// The verdict on every record under the default selection.
    pub preview: Vec<ImportPlanItem>,
    /// What the user must complete.
    pub pending: Vec<String>,
    /// Datasets that would not be brought in.
    pub excluded: Vec<String>,
    /// The package was already imported.
    pub duplicate: Option<DuplicateHint>,
}

/// What a plan shows.
#[derive(Debug, PartialEq, Eq)]
pub struct ImportPlanResult {
    /// Plan id (handed back on commit).
    pub plan_id: String,
    /// Import mode (`newSpace`, `merge` or `overwrite`).
    pub mode: String,
    /// Storage revision of the target space, re-checked on a merge commit.
    pub expected_revision: Option<String>,
    /// Target space id.
    pub space_id: String,
    /// Target space name.
    pub space_name: String,
    /// The verdict on every record.
    pub preview: Vec<ImportPlanItem>,
    /// What the user must complete.
    pub pending: Vec<String>,
    /// Datasets not brought in.
    pub excluded: Vec<String>,
    /// Declared records per dataset.
    pub counts: Vec<(String, usize)>,
}

/// What a commit returns.
#[derive(Debug, PartialEq, Eq)]
pub struct ImportCommitResult {
    /// Task id.
    pub task_id: String,
    /// The import report.
    pub report: ImportReport,
}

/// The result of switching the active space.
#[derive(Debug, PartialEq, Eq)]
pub struct SpaceSwitchResult {
    /// The space switched to.
    pub space_id: String,
    /// Its name.
    pub name: String,
    /// A restart is needed for the switch to take effect.
    pub restart_required: bool,
    /// Settings revision after the write.
    pub revision: u64,
}

/// Field-by-field copy of an item.
fn copy_item(i: &ImportPlanItem) -> (r: ImportPlanItem)
    ensures
        r == *i,
{
    let note = match &i.note {
        Some(n) => Some(n.clone()),
        None => None,
    };
    ImportPlanItem { dataset: i.dataset.clone(), id: i.id.clone(), label: i.label.clone(), outcome: i.outcome, note }
}

/// Copy of a list of items.
fn copy_items(v: &Vec<ImportPlanItem>) -> (r: Vec<ImportPlanItem>)
    ensures
        r@ == v@,
{
    let mut r: Vec<ImportPlanItem> = Vec::new();
    let mut i: usize = 0;
    while i < v.len()
        invariant
            i <= v@.len(),
            r@ == v@.subrange(0, i as int),
        decreases v@.len() - i,
    {
        r.push(copy_item(&v[i]));
        proof {
            assert(v@.subrange(0, i + 1) =~= v@.subrange(0, i as int).push(v@[i as int]));
        }
        i = i + 1;
    }
    assert(v@.subrange(0, v@.len() as int) =~= v@);
    r
}

/// Copy of a count table.
fn copy_counts(v: &Vec<(String, usize)>) -> (r: Vec<(String, usize)>)
    ensures
        r@ == v@,
{
    let mut r: Vec<(String, usize)> = Vec::new();
    let mut i: usize = 0;
    while i < v.len()
        invariant
            i <= v@.len(),
            r@ == v@.subrange(0, i as int),
        decreases v@.len() - i,
    {
        r.push((v[i].0.clone(), v[i].1));
        proof {
            assert(v@.subrange(0, i + 1) =~= v@.subrange(0, i as int).push(v@[i as int]));
        }
        i = i + 1;
    }
    assert(v@.subrange(0, v@.len() as int) =~= v@);
    r
}

/// What an inspection shows: the package summary and default selection
/// from the manifest and the catalog, and the preview, pending notes and
/// exclusions of the plan made for the default selection.
pub fn inspect_result(
    inspect_id: String,
    manifest: &PackageManifest,
    descriptors: &Vec<DatasetDescriptor>,
    probe: ImportPlan,
    duplicate: Option<DuplicateHint>,
) -> (r: ImportInspectResult)
    ensures
        r.inspect_id == inspect_id,
        r.summary.package_id == manifest.package_id,
        r.summary.datasets@.len() == manifest.datasets@.len(),
        forall|i: int|
            0 <= i < r.summary.datasets@.len() ==> shows_block(
                #[trigger] r.summary.datasets@[i],
                manifest.datasets@[i],
                descriptors@,
            ),
        r.summary.excluded@ == manifest.excluded@,
        views(r.defaults.datasets@) == importable_names(manifest.datasets@, descriptors@),
        r.preview@ == probe.items@,
        strictly_ascending(views(r.pending@)),
        views(r.pending@).to_set() == pending_texts(probe.items@),
        r.excluded@ == probe.excluded@,
        r.duplicate == duplicate,
{
    let summary = package_summary(manifest, descriptors);
    let defaults = default_import_selection(manifest, descriptors);
    let pending = probe.pending_notes();
    let ImportPlan {
        plan_id: _,
        space_id: _,
        space_name: _,
        package_id: _,
        source_space_id: _,
        source_space_name: _,
        declared_counts: _,
        blocks: _,
        items,
        excluded,
    } = probe;
    ImportInspectResult { inspect_id, summary, defaults, preview: items, pending, excluded, duplicate }
}

/// The revision a plan records of the current space's stores, for its
/// commit to re-check: none for an import into a new space; for a merge or
/// an overwrite, the storage revision of the tracked files as read when
/// the preview was built.
pub fn planned_revision(mode: ImportMode, files: &Vec<RevisionInput>) -> (r: Option<String>)
    ensures
        mode is NewSpace ==> r is None,
        !(mode is NewSpace) ==> (r matches Some(v) && v@ == hex_spec(sha256_of(revision_bytes(files@)))),
{
    match mode {
        ImportMode::NewSpace => None,
        _ => Some(storage_revision(files)),
    }
}

/// What a plan shows: its id, mode name, target space, preview, pending
/// notes, exclusions and declared counts.
pub fn plan_result(plan: &ImportPlan, mode: ImportMode, expected_revision: Option<String>) -> (r: ImportPlanResult)
    ensures
        r.plan_id == plan.plan_id,
        r.mode@ == match mode {
            ImportMode::NewSpace => "newSpace"@,
            ImportMode::Merge => "merge"@,
            ImportMode::Overwrite => "overwrite"@,
        },
        r.expected_revision == expected_revision,
        r.space_id == plan.space_id,
        r.space_name == plan.space_name,
        r.preview@ == plan.items@,
        strictly_ascending(views(r.pending@)),
        views(r.pending@).to_set() == pending_texts(plan.items@),
        r.excluded@ == plan.excluded@,
        r.counts@ == plan.declared_counts@,
{
    ImportPlanResult {
        plan_id: plan.plan_id.clone(),
        mode: owned(plan_mode_name(mode)),
        expected_revision,
        space_id: plan.space_id.clone(),
        space_name: plan.space_name.clone(),
        preview: copy_items(&plan.items),
        pending: plan.pending_notes(),
        excluded: copy_strings(&plan.excluded),
        counts: copy_counts(&plan.declared_counts),
    }
}

/// The report of an import into a new space: the plan's space, package and
/// source, the time the import finished, the records written, the declared
/// counts, the pending notes and the exclusions.
pub fn commit_report(plan: &ImportPlan, imported_at: String, counts: Vec<(String, usize)>) -> (r: ImportReport)
    ensures
        r.space_id == plan.space_id,
        r.space_name == plan.space_name,
        r.package_id == plan.package_id,
        r.source_space_id == plan.source_space_id,
        r.source_space_name == plan.source_space_name,
        r.imported_at == imported_at,
        r.counts == counts,
        r.declared_counts@ == plan.declared_counts@,
        strictly_ascending(views(r.pending@)),
        views(r.pending@).to_set() == pending_texts(plan.items@),
        r.excluded@ == plan.excluded@,
{
    ImportReport {
        space_id: plan.space_id.clone(),
        space_name: plan.space_name.clone(),
        package_id: plan.package_id.clone(),
        source_space_id: plan.source_space_id.clone(),
        source_space_name: plan.source_space_name.clone(),
        imported_at,
        counts,
        declared_counts: copy_counts(&plan.declared_counts),
        pending: plan.pending_notes(),
        excluded: copy_strings(&plan.excluded),
    }
}

/// The result of switching the active space: the switch takes effect on the
/// next start, never in place.
pub fn switch_result(space_id: String, name: String, revision: u64) -> (r: SpaceSwitchResult)
    ensures
        r.space_id == space_id,
        r.name == name,
        r.restart_required,
        r.revision == revision,
{
    SpaceSwitchResult { space_id, name, restart_required: true, revision }
}

/// Where a space came from, when an import created it.
#[derive(Debug, PartialEq, Eq)]
pub struct ImportSource {
    /// Source space name (shown only).
    pub source_space_name: String,
    /// Import time.
    pub imported_at: String,
    /// Records imported per dataset.
    pub counts: Vec<(String, usize)>,
}

/// A space of the index: its id, display name, creation time and origin.
#[derive(Debug, PartialEq, Eq)]
pub struct SpaceRecord {
    /// Space id.
    pub space_id: String,
    /// Display name.
    pub name: String,
    /// Creation (registration) time.
    pub created_at: String,
    /// Origin, for an imported space.
    pub imported_from: Option<ImportSource>,
}

/// One space in the list shown to the user (no path, nothing secret).
#[derive(Debug, PartialEq, Eq)]
pub struct SpaceSummary {
    /// Space id.
    pub space_id: String,
    /// Display name.
    pub name: String,
    /// Creation time.
    pub created_at: String,
    /// The active space.
    pub active: bool,
    /// Created by an import.
    pub imported: bool,
    /// Source space name, for an imported space.
    pub source_space_name: Option<String>,
    /// Import time, for an imported space.
    pub imported_at: Option<String>,
    /// Records imported per dataset (empty otherwise).
    pub counts: Vec<(String, usize)>,
}

/// `s` shows the space `rec`, `active` being the active space id.
pub open spec fn shows_space(s: SpaceSummary, rec: SpaceRecord, active: Seq<char>) -> bool {
    &&& s.space_id == rec.space_id
    &&& s.name == rec.name
    &&& s.created_at == rec.created_at
    &&& s.active == (rec.space_id@ == active)
    &&& s.imported == rec.imported_from is Some
    &&& match rec.imported_from {
        Some(src) => s.source_space_name == Some(src.source_space_name) && s.imported_at == Some(src.imported_at)
            && s.counts@ == src.counts@,
        None => s.source_space_name is None && s.imported_at is None && s.counts@.len() == 0,
    }
}

/// Sort key of a space: active, creation time.
pub type SpaceKey = (bool, Seq<char>);

/// The key of a space record.
pub open spec fn space_key(rec: SpaceRecord, active: Seq<char>) -> SpaceKey {
    (rec.space_id@ == active, rec.created_at@)
}

/// List order: the active space first, then the newest.
pub open spec fn listed_before(a: SpaceKey, b: SpaceKey) -> bool {
    (a.0 && !b.0) || (a.0 == b.0 && seq_lt(b.1, a.1))
}

/// `listed_before` is a strict order whose ties are equal keys.
proof fn lemma_listed_before(a: SpaceKey, b: SpaceKey, c: SpaceKey)
    ensures
        !listed_before(a, a),
        listed_before(a, b) ==> !listed_before(b, a),
        listed_before(a, b) && listed_before(b, c) ==> listed_before(a, c),
        !listed_before(a, b) && !listed_before(b, a) ==> a == b,
{
    lemma_seq_lt_irreflexive(a.1);
    lemma_seq_lt_trichotomy(a.1, b.1);
    lemma_seq_lt_trichotomy(b.1, c.1);
    if seq_lt(b.1, a.1) && seq_lt(c.1, b.1) {
        lemma_seq_lt_transitive(c.1, b.1, a.1);
    }
}

/// `order` lists each position below `n` once.
pub open spec fn is_permutation(order: Seq<usize>, n: int) -> bool {
    &&& order.len() == n
    &&& forall|j: int| 0 <= j < order.len() ==> (#[trigger] order[j]) < n
    &&& forall|a: int, b: int| 0 <= a < b < order.len() ==> #[trigger] order[a] != #[trigger] order[b]
}

/// `order` sorts `keys` in list order, keeping equal keys in their given order.
pub open spec fn stably_listed(keys: Seq<SpaceKey>, order: Seq<usize>) -> bool {
    forall|a: int, b: int|
        0 <= a < b < order.len() ==> !listed_before(keys[#[trigger] order[b] as int], keys[#[trigger] order[a] as int])
            && (keys[order[a] as int] == keys[order[b] as int] ==> order[a] < order[b])
}

/// Whether `a` comes before `b` in the list.
fn before_in_list(a_active: bool, a_created: &str, b_active: bool, b_created: &str) -> (r: bool)
    ensures
        r == listed_before((a_active, a_created@), (b_active, b_created@)),
{
    (a_active && !b_active) || (a_active == b_active && str_lt(b_created, a_created))
}

/// The positions of the spaces in list order (stable).
fn list_order(records: &Vec<SpaceRecord>, active: &str) -> (order: Vec<usize>)
    ensures
        is_permutation(order@, records@.len() as int),
        stably_listed(records@.map_values(|r: SpaceRecord| space_key(r, active@)), order@),
{
    let ghost keys = records@.map_values(|r: SpaceRecord| space_key(r, active@));
    let mut order: Vec<usize> = Vec::new();
    let n = records.len();
    let mut i: usize = 0;
    while i < n
        invariant
            n == records@.len(),
            keys == records@.map_values(|r: SpaceRecord| space_key(r, active@)),
            i <= n,
            order@.len() == i,
            forall|j: int| 0 <= j < order@.len() ==> (#[trigger] order@[j]) < i,
            forall|a: int, b: int| 0 <= a < b < order@.len() ==> #[trigger] order@[a] != #[trigger] order@[b],
            stably_listed(keys, order@),
        decreases n - i,
    {
        let ai = str_eq(records[i].space_id.as_str(), active);
        let mut p: usize = 0;
        while p < order.len() && !before_in_list(
            ai,
            records[i].created_at.as_str(),
            str_eq(records[order[p]].space_id.as_str(), active),
            records[order[p]].created_at.as_str(),
        )
            invariant
                n == records@.len(),
                i < n,
                keys == records@.map_values(|r: SpaceRecord| space_key(r, active@)),
                ai == (records@[i as int].space_id@ == active@),
                p <= order@.len(),
                forall|j: int| 0 <= j < order@.len() ==> (#[trigger] order@[j]) < i,
                forall|q: int| 0 <= q < p ==> !listed_before(keys[i as int], keys[#[trigger] order@[q] as int]),
            decreases order@.len() - p,
        {
            p = p + 1;
        }
        let ghost old_order = order@;
        order.insert(p, i);
        proof {
            let o = order@;
            assert(o =~= old_order.insert(p as int, i));
            assert forall|j: int| 0 <= j < o.len() implies (#[trigger] o[j]) < i + 1 by {
                if j < p {
                    assert(o[j] == old_order[j]);
                } else if j > p {
                    assert(o[j] == old_order[j - 1]);
                }
            }
            assert forall|a: int, b: int| 0 <= a < b < o.len() implies #[trigger] o[a] != #[trigger] o[b] by {
                if a == p {
                    assert(o[b] == old_order[b - 1]);
                } else if b == p {
                    assert(o[a] == old_order[a]);
                } else if a < p && b > p {
                    assert(o[a] == old_order[a] && o[b] == old_order[b - 1]);
                } else if a > p {
                    assert(o[a] == old_order[a - 1] && o[b] == old_order[b - 1]);
                } else {
                    assert(o[a] == old_order[a] && o[b] == old_order[b]);
                }
            }
            let ki = keys[i as int];
            if p < old_order.len() {
                assert(listed_before(ki, keys[old_order[p as int] as int]));
            }
            assert forall|a: int, b: int| 0 <= a < b < o.len() implies !listed_before(
                keys[#[trigger] o[b] as int],
                keys[#[trigger] o[a] as int],
            ) && (keys[o[a] as int] == keys[o[b] as int] ==> o[a] < o[b]) by {
                if a == p {
                    let y = old_order[b - 1];
                    assert(o[b] == y);
                    let z = old_order[p as int];
                    lemma_listed_before(keys[y as int], ki, keys[z as int]);
                    lemma_listed_before(ki, keys[z as int], keys[y as int]);
                    if b - 1 > p {
                        lemma_listed_before(keys[y as int], keys[z as int], ki);
                    }
                } else if b == p {
                    let x = old_order[a];
                    assert(o[a] == x);
                    lemma_listed_before(ki, keys[x as int], ki);
                } else if a < p && b > p {
                    assert(o[a] == old_order[a] && o[b] == old_order[b - 1]);
                } else if a > p {
                    assert(o[a] == old_order[a - 1] && o[b] == old_order[b - 1]);
                } else {
                    assert(o[a] == old_order[a] && o[b] == old_order[b]);
                }
            }
        }
        i = i + 1;
    }
    order
}

/// The summary of one space.
fn space_summary(rec: &SpaceRecord, active: &str) -> (s: SpaceSummary)
    ensures
        shows_space(s, *rec, active@),
{
    let (imported, source_space_name, imported_at, counts) = match &rec.imported_from {
        Some(src) => (true, Some(src.source_space_name.clone()), Some(src.imported_at.clone()), copy_counts(&src.counts)),
        None => (false, None, None, Vec::new()),
    };
    SpaceSummary {
        space_id: rec.space_id.clone(),
        name: rec.name.clone(),
        created_at: rec.created_at.clone(),
        active: str_eq(rec.space_id.as_str(), active),
        imported,
        source_space_name,
        imported_at,
        counts,
    }
}

/// The spaces of this device as the user sees them: the active space
/// first, then the newest first; spaces with the same standing keep the
/// order of the index.
pub fn spaces_list(records: &Vec<SpaceRecord>, active: &str) -> (r: Vec<SpaceSummary>)
    ensures
        exists|order: Seq<usize>|
            is_permutation(order, records@.len() as int) && stably_listed(
                records@.map_values(|x: SpaceRecord| space_key(x, active@)),
                order,
            ) && r@.len() == order.len() && forall|j: int|
                0 <= j < order.len() ==> shows_space(#[trigger] r@[j], records@[order[j] as int], active@),
{
    let order = list_order(records, active);
    let mut out: Vec<SpaceSummary> = Vec::new();
    let mut j: usize = 0;
    while j < order.len()
        invariant
            is_permutation(order@, records@.len() as int),
            j <= order@.len(),
            out@.len() == j,
            forall|q: int| 0 <= q < j ==> shows_space(#[trigger] out@[q], records@[order@[q] as int], active@),
        decreases order@.len() - j,
    {
        let k = order[j];
        out.push(space_summary(&records[k], active));
        j = j + 1;
    }
    assert(is_permutation(order@, records@.len() as int) && stably_listed(
        records@.map_values(|x: SpaceRecord| space_key(x, active@)),
        order@,
    ) && out@.len() == order@.len());
    out
}

/// A permutation lists every position.
proof fn lemma_permutation_covers(order: Seq<usize>, n: int, k: int)
    requires
        is_permutation(order, n),
        0 <= k < n,
    ensures
        exists|b: int| 0 <= b < order.len() && order[b] == k,
{
    let ints = order.map_values(|x: usize| x as int);
    assert forall|a: int, b: int| 0 <= a < b < ints.len() implies ints[a] != ints[b] by {
        assert(order[a] != order[b]);
    }
    assert(ints.no_duplicates());
    ints.unique_seq_to_set();
    vstd::set_lib::lemma_int_range(0, n);
    let range = vstd::set_lib::set_int_range(0, n);
    assert(ints.to_set().subset_of(range)) by {
        assert forall|x: int| ints.to_set().contains(x) implies range.contains(x) by {
            let j = choose|j: int| 0 <= j < ints.len() && ints[j] == x;
            assert(order[j] < n);
        }
    }
    vstd::seq_lib::seq_to_set_is_finite(ints);
    vstd::set_lib::lemma_subset_equality(ints.to_set(), range);
    assert(range.contains(k));
    assert(ints.to_set().contains(k));
    let b = choose|b: int| 0 <= b < ints.len() && ints[b] == k;
    assert(order[b] == k);
}

/// The active space heads the list: when one of the spaces is the active
/// one, the first space listed is active.
pub proof fn active_space_listed_first(keys: Seq<SpaceKey>, order: Seq<usize>, k: int)
    requires
        is_permutation(order, keys.len() as int),
        stably_listed(keys, order),
        0 <= k < keys.len(),
        keys[k].0,
    ensures
        keys[order[0] as int].0,
{
    lemma_permutation_covers(order, keys.len() as int, k);
    let b = choose|b: int| 0 <= b < order.len() && order[b] == k;
    if b > 0 && !keys[order[0] as int].0 {
        assert(!listed_before(keys[order[b] as int], keys[order[0] as int]));
    }
}

} // verus!
