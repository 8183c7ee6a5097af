//! What the import dialog shows of a package before anything is written: a
//! summary of its blocks against the datasets this application knows, the
//! default import selection, and the record counts per dataset.

use vstd::prelude::*;

use crate::data_transfer::manifest::{DatasetBlock, PackageManifest};
use crate::data_transfer::types::{DatasetDescriptor, ImportSelection, TransportPolicy};
use crate::text::{lemma_seq_lt_transitive, lemma_seq_lt_trichotomy, owned, seq_lt, str_eq, str_lt, trim, trim_spec, views};

verus! {

/// One block of a package as the import dialog shows it.
#[derive(Debug, PartialEq, Eq)]
pub struct PackageDatasetView {
    /// Dataset name.
    pub name: String,
    /// Display name from this application's catalog (the name itself for an unknown dataset).
    pub label: String,
    /// Transport policy.
    pub policy: TransportPolicy,
    /// Schema version declared in the package.
    pub schema_version: u32,
    /// Record count declared in the package.
    pub record_count: usize,
    /// The package carries the records (otherwise they are only declared).
    pub carried: bool,
    /// This application can import the block.
    pub supported: bool,
    /// Why it cannot, when it cannot.
    pub reason: Option<String>,
}

/// Summary of a package (the display part of an inspection).
#[derive(Debug, PartialEq, Eq)]
pub struct PackageSummaryView {
    /// Package id.
    pub package_id: String,
    /// Source space id (untrusted).
    pub source_space_id: String,
    /// Source space name (untrusted).
    pub source_space_name: String,
    /// Export time (untrusted).
    pub created_at: String,
    /// Exporting application version (untrusted).
    pub app_version: String,
    /// Exporting platform (untrusted).
    pub platform: String,
    /// One view per block, in package order.
    pub datasets: Vec<PackageDatasetView>,
    /// Items the exporting side excluded.
    pub excluded: Vec<String>,
}

/// The first descriptor named `name`.
pub open spec fn first_named(ds: Seq<DatasetDescriptor>, name: Seq<char>) -> Option<int>
    decreases ds.len(),
{
    if ds.len() == 0 {
        None
    } else if ds[0].name@ == name {
        Some(0)
    } else {
        match first_named(ds.drop_first(), name) {
            Some(i) => Some(i + 1),
            None => None,
        }
    }
}

/// What `first_named` finds is the first descriptor of that name.
pub proof fn lemma_first_named(ds: Seq<DatasetDescriptor>, name: Seq<char>)
    ensures
        first_named(ds, name) matches Some(i) ==> 0 <= i < ds.len() && ds[i].name@ == name && forall|j: int|
            0 <= j < i ==> #[trigger] ds[j].name@ != name,
        first_named(ds, name) is None ==> forall|j: int| 0 <= j < ds.len() ==> #[trigger] ds[j].name@ != name,
    decreases ds.len(),
{
    if ds.len() > 0 {
        lemma_first_named(ds.drop_first(), name);
        assert forall|j: int| 0 < j < ds.len() implies ds.drop_first()[j - 1] == ds[j] by {}
        if ds[0].name@ != name {
            assert forall|j: int| 0 <= j < ds.len() && first_named(ds, name) is None implies #[trigger] ds[j].name@
                != name by {
                if j > 0 {
                    assert(ds.drop_first()[j - 1] == ds[j]);
                }
            }
            if first_named(ds, name) is Some {
                let i = first_named(ds, name)->0;
                assert forall|j: int| 0 <= j < i implies #[trigger] ds[j].name@ != name by {
                    if j > 0 {
                        assert(ds.drop_first()[j - 1] == ds[j]);
                    }
                }
            }
        }
    }
}

/// This application can import block `b` with descriptor `d`: its schema is
/// not newer than ours and it is not device-local.
pub open spec fn supported_by(b: DatasetBlock, d: DatasetDescriptor) -> bool {
    d.schema_version >= b.schema_version && b.policy != TransportPolicy::DeviceLocal
}

/// The reason shown for a dataset this application does not know.
pub open spec fn unknown_dataset_reason() -> Seq<char> {
    "本应用不认识这个类别（可能来自更新的版本）"@
}

/// The reason shown for a block this application cannot import.
pub open spec fn unsupported_reason() -> Seq<char> {
    "数据包的版本高于当前应用，需升级后再导入"@
}

/// Text of an optional string.
pub open spec fn opt_text(o: Option<String>) -> Option<Seq<char>> {
    match o {
        Some(s) => Some(s@),
        None => None,
    }
}

/// `v` shows block `b` against the descriptors `ds` (the first descriptor of
/// the block's name decides).
pub open spec fn shows_block(v: PackageDatasetView, b: DatasetBlock, ds: Seq<DatasetDescriptor>) -> bool {
    let d = first_named(ds, b.name@);
    let supported = match d {
        Some(k) => supported_by(b, ds[k]),
        None => false,
    };
    &&& v.name@ == b.name@
    &&& v.label@ == match d {
        Some(k) => ds[k].label@,
        None => b.name@,
    }
    &&& v.policy == b.policy
    &&& v.schema_version == b.schema_version
    &&& v.record_count == b.record_count
    &&& v.carried == b.records.is_some()
    &&& v.supported == supported
    &&& opt_text(v.reason) == if d is None {
        Some(unknown_dataset_reason())
    } else if !supported {
        Some(unsupported_reason())
    } else {
        None
    }
}

/// The first descriptor named `name`, by position.
pub(crate) fn find_first(ds: &Vec<DatasetDescriptor>, name: &str) -> (r: Option<usize>)
    ensures
        r matches Some(i) ==> first_named(ds@, name@) == Some(i as int),
        r is None ==> first_named(ds@, name@) is None,
{
    proof {
        lemma_first_named(ds@, name@);
    }
    let mut i: usize = 0;
    while i < ds.len()
        invariant
            i <= ds@.len(),
            forall|j: int| 0 <= j < i ==> #[trigger] ds@[j].name@ != name@,
            first_named(ds@, name@) matches Some(f) ==> 0 <= f < ds@.len() && ds@[f].name@ == name@ && forall|j: int|
                0 <= j < f ==> #[trigger] ds@[j].name@ != name@,
            first_named(ds@, name@) is None ==> forall|j: int| 0 <= j < ds@.len() ==> #[trigger] ds@[j].name@ != name@,
        decreases ds@.len() - i,
    {
        if str_eq(ds[i].name.as_str(), name) {
            proof {
                if first_named(ds@, name@) is Some {
                    let f = first_named(ds@, name@)->0;
                    if f < i {
                        assert(ds@[f].name@ != name@);
                    } else if f > i {
                        assert(ds@[i as int].name@ != name@);
                    }
                } else {
                    assert(ds@[i as int].name@ != name@);
                }
            }
            return Some(i);
        }
        i = i + 1;
    }
    proof {
        if first_named(ds@, name@) is Some {
            let f = first_named(ds@, name@)->0;
            assert(ds@[f].name@ != name@);
        }
    }
    None
}

/// Whether a block is not device-local.
fn travels(policy: TransportPolicy) -> (r: bool)
    ensures
        r == (policy != TransportPolicy::DeviceLocal),
{
    match policy {
        TransportPolicy::DeviceLocal => false,
        _ => true,
    }
}

/// Field-by-field copy of a list of strings.
pub(crate) fn copy_strings(v: &Vec<String>) -> (r: Vec<String>)
    ensures
        r@ == v@,
{
    let mut r: Vec<String> = Vec::new();
    let mut i: usize = 0;
    while i < v.len()
        invariant
            i <= v@.len(),
            r@ == v@.subrange(0, i as int),
        decreases v@.len() - i,
    {
        r.push(v[i].clone());
        proof {
            assert(v@.subrange(0, i + 1) =~= v@.subrange(0, i as int).push(v@[i as int]));
        }
        i = i + 1;
    }
    assert(v@.subrange(0, v@.len() as int) =~= v@);
    r
}

/// The view of one block.
fn block_view(b: &DatasetBlock, ds: &Vec<DatasetDescriptor>) -> (v: PackageDatasetView)
    ensures
        shows_block(v, *b, ds@),
{
    proof {
        lemma_first_named(ds@, b.name@);
    }
    let found = find_first(ds, b.name.as_str());
    let supported = match found {
        Some(k) => ds[k].schema_version >= b.schema_version && travels(b.policy),
        None => false,
    };
    let reason = match found {
        None => {
            let r = owned("本应用不认识这个类别（可能来自更新的版本）");
            proof {
                reveal_strlit("本应用不认识这个类别（可能来自更新的版本）");
            }
            Some(r)
        },
        Some(_) => if !supported {
            let r = owned("数据包的版本高于当前应用，需升级后再导入");
            proof {
                reveal_strlit("数据包的版本高于当前应用，需升级后再导入");
            }
            Some(r)
        } else {
            None
        },
    };
    let label = match found {
        Some(k) => ds[k].label.clone(),
        None => b.name.clone(),
    };
    PackageDatasetView {
        name: b.name.clone(),
        label,
        policy: b.policy,
        schema_version: b.schema_version,
        record_count: b.record_count,
        carried: b.records.is_some(),
        supported,
        reason,
    }
}

/// The summary of a package as the import dialog shows it: its descriptive
/// fields, and each block with its display name and whether (and if not, why
/// not) this application can import it.
pub fn package_summary(manifest: &PackageManifest, descriptors: &Vec<DatasetDescriptor>) -> (r: PackageSummaryView)
    ensures
        r.package_id == manifest.package_id,
        r.source_space_id == manifest.source_space_id,
        r.source_space_name == manifest.source_space_name,
        r.created_at == manifest.created_at,
        r.app_version == manifest.app_version,
        r.platform == manifest.platform,
        r.excluded@ == manifest.excluded@,
        r.datasets@.len() == manifest.datasets@.len(),
        forall|i: int|
            0 <= i < r.datasets@.len() ==> shows_block(#[trigger] r.datasets@[i], manifest.datasets@[i], descriptors@),
{
    let mut datasets: Vec<PackageDatasetView> = Vec::new();
    let mut i: usize = 0;
    while i < manifest.datasets.len()
        invariant
            i <= manifest.datasets@.len(),
            datasets@.len() == i,
            forall|k: int|
                0 <= k < i ==> shows_block(#[trigger] datasets@[k], manifest.datasets@[k], descriptors@),
        decreases manifest.datasets@.len() - i,
    {
        datasets.push(block_view(&manifest.datasets[i], descriptors));
        i = i + 1;
    }
    PackageSummaryView {
        package_id: manifest.package_id.clone(),
        source_space_id: manifest.source_space_id.clone(),
        source_space_name: manifest.source_space_name.clone(),
        created_at: manifest.created_at.clone(),
        app_version: manifest.app_version.clone(),
        platform: manifest.platform.clone(),
        datasets,
        excluded: copy_strings(&manifest.excluded),
    }
}

/// Block `b` can be imported: some descriptor of its name supports it.
pub open spec fn importable(b: DatasetBlock, ds: Seq<DatasetDescriptor>) -> bool {
    exists|k: int| 0 <= k < ds.len() && ds[k].name@ == b.name@ && #[trigger] supported_by(b, ds[k])
}

/// Names of the importable blocks, in package order.
pub open spec fn importable_names(bs: Seq<DatasetBlock>, ds: Seq<DatasetDescriptor>) -> Seq<Seq<char>>
    decreases bs.len(),
{
    if bs.len() == 0 {
        Seq::empty()
    } else if importable(bs.last(), ds) {
        importable_names(bs.drop_last(), ds).push(bs.last().name@)
    } else {
        importable_names(bs.drop_last(), ds)
    }
}

/// Whether some descriptor of the block's name supports it.
fn any_supports(b: &DatasetBlock, ds: &Vec<DatasetDescriptor>) -> (r: bool)
    ensures
        r == importable(*b, ds@),
{
    let mut k: usize = 0;
    while k < ds.len()
        invariant
            k <= ds@.len(),
            forall|j: int| 0 <= j < k ==> !(ds@[j].name@ == b.name@ && #[trigger] supported_by(*b, ds@[j])),
        decreases ds@.len() - k,
    {
        if str_eq(ds[k].name.as_str(), b.name.as_str()) && ds[k].schema_version >= b.schema_version && travels(
            b.policy,
        ) {
            assert(supported_by(*b, ds@[k as int]));
            return true;
        }
        k = k + 1;
    }
    false
}

/// The default import selection: every block this application can import
/// (blocks that only declare their records are excluded later, by planning).
pub fn default_import_selection(manifest: &PackageManifest, descriptors: &Vec<DatasetDescriptor>) -> (r: ImportSelection)
    ensures
        views(r.datasets@) == importable_names(manifest.datasets@, descriptors@),
{
    let mut names: Vec<String> = Vec::new();
    let mut i: usize = 0;
    while i < manifest.datasets.len()
        invariant
            i <= manifest.datasets@.len(),
            views(names@) == importable_names(manifest.datasets@.subrange(0, i as int), descriptors@),
        decreases manifest.datasets@.len() - i,
    {
        let ghost before = names@;
        proof {
            assert(manifest.datasets@.subrange(0, i + 1).drop_last() =~= manifest.datasets@.subrange(0, i as int));
        }
        if any_supports(&manifest.datasets[i], descriptors) {
            names.push(manifest.datasets[i].name.clone());
            proof {
                assert(views(names@) =~= views(before).push(manifest.datasets@[i as int].name@));
            }
        }
        i = i + 1;
    }
    assert(manifest.datasets@.subrange(0, manifest.datasets@.len() as int) =~= manifest.datasets@);
    ImportSelection { datasets: names }
}

/// The count of the last pair keyed `key`.
pub open spec fn last_count(pairs: Seq<(Seq<char>, usize)>, key: Seq<char>) -> Option<usize>
    decreases pairs.len(),
{
    if pairs.len() == 0 {
        None
    } else if pairs.last().0 == key {
        Some(pairs.last().1)
    } else {
        last_count(pairs.drop_last(), key)
    }
}

/// Name and declared count of each block.
pub open spec fn block_counts(bs: Seq<DatasetBlock>) -> Seq<(Seq<char>, usize)> {
    bs.map_values(|b: DatasetBlock| (b.name@, b.record_count))
}

/// Text views of a count table.
pub open spec fn count_views(r: Seq<(String, usize)>) -> Seq<(Seq<char>, usize)> {
    r.map_values(|p: (String, usize)| (p.0@, p.1))
}

/// Keys in strictly ascending order (hence distinct).
pub open spec fn strictly_ascending(r: Seq<(Seq<char>, usize)>) -> bool {
    forall|i: int, j: int| 0 <= i < j < r.len() ==> seq_lt(#[trigger] r[i].0, #[trigger] r[j].0)
}

/// In a table of distinct keys, the count of a key is that of its one pair.
proof fn lemma_last_count_distinct(s: Seq<(Seq<char>, usize)>, key: Seq<char>)
    requires
        forall|i: int, j: int| 0 <= i < j < s.len() ==> #[trigger] s[i].0 != #[trigger] s[j].0,
    ensures
        forall|i: int| 0 <= i < s.len() && #[trigger] s[i].0 == key ==> last_count(s, key) == Some(s[i].1),
        (forall|i: int| 0 <= i < s.len() ==> #[trigger] s[i].0 != key) ==> last_count(s, key) is None,
    decreases s.len(),
{
    if s.len() > 0 {
        let t = s.drop_last();
        assert forall|i: int, j: int| 0 <= i < j < t.len() implies #[trigger] t[i].0 != #[trigger] t[j].0 by {
            assert(t[i] == s[i] && t[j] == s[j]);
        }
        lemma_last_count_distinct(t, key);
        assert forall|i: int| 0 <= i < s.len() && #[trigger] s[i].0 == key implies last_count(s, key) == Some(
            s[i].1,
        ) by {
            if i < s.len() - 1 {
                assert(t[i] == s[i]);
            }
        }
        if forall|i: int| 0 <= i < s.len() ==> #[trigger] s[i].0 != key {
            assert forall|i: int| 0 <= i < t.len() implies #[trigger] t[i].0 != key by {
                assert(t[i] == s[i]);
            }
        }
    }
}

/// Record counts per dataset name, as a name-ordered table in which a name
/// declared twice takes its last count.
pub fn dataset_counts(manifest: &PackageManifest) -> (r: Vec<(String, usize)>)
    ensures
        strictly_ascending(count_views(r@)),
        forall|key: Seq<char>| #[trigger] last_count(count_views(r@), key) == last_count(
            block_counts(manifest.datasets@),
            key,
        ),
{
    let mut r: Vec<(String, usize)> = Vec::new();
    let mut i: usize = 0;
    while i < manifest.datasets.len()
        invariant
            i <= manifest.datasets@.len(),
            strictly_ascending(count_views(r@)),
            forall|key: Seq<char>| #[trigger] last_count(count_views(r@), key) == last_count(
                block_counts(manifest.datasets@.subrange(0, i as int)),
                key,
            ),
        decreases manifest.datasets@.len() - i,
    {
        let name = &manifest.datasets[i].name;
        let count = manifest.datasets[i].record_count;
        let ghost before = count_views(r@);
        let mut p: usize = 0;
        while p < r.len() && str_lt(r[p].0.as_str(), name.as_str())
            invariant
                p <= r@.len(),
                before == count_views(r@),
                forall|q: int| 0 <= q < p ==> seq_lt(#[trigger] before[q].0, name@),
            decreases r@.len() - p,
        {
            p = p + 1;
        }
        proof {
            // all keys from p on are at least the new name
            assert forall|q: int| p <= q < before.len() implies !seq_lt(#[trigger] before[q].0, name@) by {
                if q > p {
                    assert(seq_lt(before[p as int].0, before[q].0));
                    if seq_lt(before[q].0, name@) {
                        lemma_seq_lt_trichotomy(before[p as int].0, name@);
                        lemma_seq_lt_transitive(before[p as int].0, before[q].0, name@);
                    }
                }
            }
            assert forall|a: int, b: int| 0 <= a < b < before.len() implies #[trigger] before[a].0 != #[trigger] before[b].0 by {
                lemma_seq_lt_trichotomy(before[a].0, before[b].0);
            }
            lemma_last_count_distinct(before, name@);
        }
        let replace = p < r.len() && str_eq(r[p].0.as_str(), name.as_str());
        proof {
            if p < before.len() {
                assert(before[p as int].0 == r@[p as int].0@);
                if replace {
                    assert(before[p as int].0 == name@);
                } else {
                    assert(before[p as int].0 != name@);
                    lemma_seq_lt_trichotomy(name@, before[p as int].0);
                    assert(seq_lt(name@, before[p as int].0));
                }
            }
        }
        if replace {
            r.set(p, (name.clone(), count));
        } else {
            r.insert(p, (name.clone(), count));
        }
        proof {
            let now = count_views(r@);
            let pre = block_counts(manifest.datasets@.subrange(0, i as int));
            let post = block_counts(manifest.datasets@.subrange(0, i + 1));
            assert(post.drop_last() =~= pre);
            assert(post.last() == (name@, count));
            if replace {
                assert(now =~= before.update(p as int, (name@, count)));
            } else {
                assert(now =~= before.insert(p as int, (name@, count)));
            }
            assert forall|a: int, b: int| 0 <= a < b < now.len() implies seq_lt(#[trigger] now[a].0, #[trigger] now[b].0) by {
                if replace {
                    if a == p {
                        assert(before[b].0 == now[b].0);
                    } else if b == p {
                        assert(before[a].0 == now[a].0);
                    }
                } else {
                    if a == p {
                        assert(now[b] == before[b - 1]);
                        if b - 1 > p {
                            lemma_seq_lt_trichotomy(name@, before[p as int].0);
                            lemma_seq_lt_trichotomy(before[p as int].0, before[b - 1].0);
                            if before[p as int].0 != name@ {
                                lemma_seq_lt_transitive(name@, before[p as int].0, before[b - 1].0);
                            }
                        } else {
                            lemma_seq_lt_trichotomy(name@, before[p as int].0);
                        }
                    } else if b == p {
                        assert(now[a] == before[a]);
                    } else if a < p && b > p {
                        assert(now[a] == before[a] && now[b] == before[b - 1]);
                    } else if a > p {
                        assert(now[a] == before[a - 1] && now[b] == before[b - 1]);
                    }
                }
            }
            assert forall|a: int, b: int| 0 <= a < b < now.len() implies #[trigger] now[a].0 != #[trigger] now[b].0 by {
                lemma_seq_lt_trichotomy(now[a].0, now[b].0);
            }
            assert forall|key: Seq<char>| #[trigger] last_count(now, key) == last_count(post, key) by {
                lemma_last_count_distinct(now, key);
                lemma_last_count_distinct(before, key);
                assert(now[p as int] == (name@, count));
                if key == name@ {
                } else {
                    assert(last_count(post, key) == last_count(pre, key));
                    if exists|q: int| 0 <= q < before.len() && before[q].0 == key {
                        let q = choose|q: int| 0 <= q < before.len() && before[q].0 == key;
                        if replace {
                            assert(q != p);
                            assert(now[q] == before[q]);
                        } else if q < p {
                            assert(now[q] == before[q]);
                        } else {
                            assert(now[q + 1] == before[q]);
                        }
                    } else {
                        assert forall|q: int| 0 <= q < now.len() implies #[trigger] now[q].0 != key by {
                            if q != p {
                                if replace || q < p {
                                    assert(now[q] == before[q]);
                                } else {
                                    assert(now[q] == before[q - 1]);
                                }
                            }
                        }
                    }
                }
            }
        }
        i = i + 1;
    }
    assert(manifest.datasets@.subrange(0, manifest.datasets@.len() as int) =~= manifest.datasets@);
    r
}

/// What an export produced.
#[derive(Debug, PartialEq, Eq)]
pub struct ExportReport {
    /// Where the package was written.
    pub path: String,
    /// Size of the package file.
    pub bytes: u64,
    /// Package id.
    pub package_id: String,
    /// Name of the exported space.
    pub source_space_name: String,
    /// Records per dataset, by name.
    pub counts: Vec<(String, usize)>,
    /// What was left out (including credential blocks only declared).
    pub excluded: Vec<String>,
    /// Credentials were written into the package.
    pub secret_included: bool,
}

/// The start of a transfer: its task and what the export produced.
#[derive(Debug, PartialEq, Eq)]
pub struct TransferStart {
    /// Task id (the front end finds the transfer in its task panel by it).
    pub task_id: String,
    /// The export report.
    pub report: ExportReport,
}

/// The answer to a cancel request.
#[derive(Clone, Copy, Debug, PartialEq, Eq)]
pub struct CancelResult {
    /// A running transfer was asked to stop.
    pub cancelled: bool,
}

/// The package carries credentials: some secret block holds its records.
pub open spec fn carries_secret(bs: Seq<DatasetBlock>) -> bool {
    exists|i: int| 0 <= i < bs.len() && (#[trigger] bs[i]).policy == TransportPolicy::Secret && bs[i].records.is_some()
}

/// The report of an export of `manifest` written to `path` as `bytes` bytes.
pub fn export_report(manifest: &PackageManifest, path: &str, bytes: u64) -> (r: ExportReport)
    ensures
        r.path@ == path@,
        r.bytes == bytes,
        r.package_id == manifest.package_id,
        r.source_space_name == manifest.source_space_name,
        strictly_ascending(count_views(r.counts@)),
        forall|key: Seq<char>| #[trigger] last_count(count_views(r.counts@), key) == last_count(
            block_counts(manifest.datasets@),
            key,
        ),
        r.excluded@ == manifest.excluded@,
        r.secret_included == carries_secret(manifest.datasets@),
{
    let mut secret = false;
    let mut i: usize = 0;
    while i < manifest.datasets.len()
        invariant
            i <= manifest.datasets@.len(),
            secret == exists|k: int|
                0 <= k < i && (#[trigger] manifest.datasets@[k]).policy == TransportPolicy::Secret
                    && manifest.datasets@[k].records.is_some(),
        decreases manifest.datasets@.len() - i,
    {
        let b = &manifest.datasets[i];
        let is_secret = match b.policy {
            TransportPolicy::Secret => true,
            _ => false,
        };
        if is_secret && b.records.is_some() {
            assert(manifest.datasets@[i as int].policy == TransportPolicy::Secret);
            secret = true;
        }
        i = i + 1;
    }
    ExportReport {
        path: owned(path),
        bytes,
        package_id: manifest.package_id.clone(),
        source_space_name: manifest.source_space_name.clone(),
        counts: dataset_counts(manifest),
        excluded: copy_strings(&manifest.excluded),
        secret_included: secret,
    }
}

/// The package path chosen for an export: trimmed, and required.
pub fn export_target(path: &str) -> (r: Result<String, String>)
    ensures
        if trim_spec(path@).len() > 0 {
            r matches Ok(t) && t@ == trim_spec(path@)
        } else {
            r matches Err(m) && m@ == "请选择数据包保存位置"@
        },
{
    let t = trim(path);
    if t.unicode_len() == 0 {
        let m = owned("请选择数据包保存位置");
        proof {
            reveal_strlit("请选择数据包保存位置");
        }
        Err(m)
    } else {
        Ok(owned(t))
    }
}

/// The package path chosen for an import: trimmed, and required.
pub fn inspect_target(path: &str) -> (r: Result<String, String>)
    ensures
        if trim_spec(path@).len() > 0 {
            r matches Ok(t) && t@ == trim_spec(path@)
        } else {
            r matches Err(m) && m@ == "请选择数据包文件"@
        },
{
    let t = trim(path);
    if t.unicode_len() == 0 {
        let m = owned("请选择数据包文件");
        proof {
            reveal_strlit("请选择数据包文件");
        }
        Err(m)
    } else {
        Ok(owned(t))
    }
}

} // verus!
