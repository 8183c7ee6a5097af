//! Assembling the manifest of an export. The selected datasets are taken in
//! the order of the resolved selection: each is either only declared
//! (device-local facts, and credentials the user keeps out) or carries the
//! records its adapter exported, whose count must match the selection. The
//! manifest then lists what the catalog offered but the selection left out,
//! and the dependency edges in (kind, from, to) order without repeats.
//!
//! The adapters' exports run between the steps: `plan_export` says what each
//! selected dataset needs, `carried_block` checks what an export produced,
//! and `finish_manifest` completes and validates the manifest.

use vstd::prelude::*;

use crate::data_transfer::catalog::resolved_names;
use crate::data_transfer::manifest::{
    block_carrying, hex_spec, manifest_error, sha256_of, shapes_fit, validate_manifest, CarriedRecords, DatasetBlock,
    PackageManifest, RecordBody,
};
use crate::data_transfer::package_view::{find_first, first_named, lemma_first_named};
use crate::data_transfer::types::{DatasetDescriptor, DependencyEdge, ResolvedSelection, TransportPolicy};
use crate::text::{
    decimal, decimal_spec, lemma_seq_lt_irreflexive, lemma_seq_lt_transitive, lemma_seq_lt_trichotomy, owned, seq_lt,
    str_eq, str_lt, views,
};

verus! {

/// A dependency edge as (kind, from, to).
pub type EdgeKey = (Seq<char>, Seq<char>, Seq<char>);

/// The (kind, from, to) of an edge.
pub open spec fn edge_key(e: DependencyEdge) -> EdgeKey {
    (e.kind@, e.from_id@, e.to_id@)
}

/// The keys of a sequence of edges.
pub open spec fn edge_keys(s: Seq<DependencyEdge>) -> Seq<EdgeKey> {
    s.map_values(|e: DependencyEdge| edge_key(e))
}

/// Lexicographic order on (kind, from, to).
pub open spec fn edge_key_lt(a: EdgeKey, b: EdgeKey) -> bool {
    seq_lt(a.0, b.0) || (a.0 == b.0 && (seq_lt(a.1, b.1) || (a.1 == b.1 && seq_lt(a.2, b.2))))
}

/// Strictly ascending in (kind, from, to): sorted and without repeats.
pub open spec fn edges_ascending(s: Seq<EdgeKey>) -> bool {
    forall|i: int, j: int| 0 <= i < j < s.len() ==> edge_key_lt(#[trigger] s[i], #[trigger] s[j])
}

/// The edge order is total and irreflexive.
proof fn lemma_edge_key_total(a: EdgeKey, b: EdgeKey)
    ensures
        edge_key_lt(a, b) || a == b || edge_key_lt(b, a),
        !(edge_key_lt(a, b) && edge_key_lt(b, a)),
        !edge_key_lt(a, a),
{
    lemma_seq_lt_trichotomy(a.0, b.0);
    lemma_seq_lt_trichotomy(a.1, b.1);
    lemma_seq_lt_trichotomy(a.2, b.2);
    lemma_seq_lt_irreflexive(a.0);
    lemma_seq_lt_irreflexive(a.1);
    lemma_seq_lt_irreflexive(a.2);
}

/// The edge order is transitive.
proof fn lemma_edge_key_transitive(a: EdgeKey, b: EdgeKey, c: EdgeKey)
    requires
        edge_key_lt(a, b),
        edge_key_lt(b, c),
    ensures
        edge_key_lt(a, c),
{
    if seq_lt(a.0, b.0) && seq_lt(b.0, c.0) {
        lemma_seq_lt_transitive(a.0, b.0, c.0);
    }
    if a.0 == b.0 && b.0 == c.0 && seq_lt(a.1, b.1) && seq_lt(b.1, c.1) {
        lemma_seq_lt_transitive(a.1, b.1, c.1);
    }
    if a.0 == b.0 && b.0 == c.0 && a.1 == b.1 && b.1 == c.1 && seq_lt(a.2, b.2) && seq_lt(b.2, c.2) {
        lemma_seq_lt_transitive(a.2, b.2, c.2);
    }
}

/// Whether `a` comes before `b` in (kind, from, to) order.
fn edge_less(a: &DependencyEdge, b: &DependencyEdge) -> (r: bool)
    ensures
        r == edge_key_lt(edge_key(*a), edge_key(*b)),
{
    if str_lt(a.kind.as_str(), b.kind.as_str()) {
        return true;
    }
    if !str_eq(a.kind.as_str(), b.kind.as_str()) {
        return false;
    }
    if str_lt(a.from_id.as_str(), b.from_id.as_str()) {
        return true;
    }
    if !str_eq(a.from_id.as_str(), b.from_id.as_str()) {
        return false;
    }
    str_lt(a.to_id.as_str(), b.to_id.as_str())
}

/// Whether two edges are the same edge.
fn same_edge(a: &DependencyEdge, b: &DependencyEdge) -> (r: bool)
    ensures
        r == (edge_key(*a) == edge_key(*b)),
{
    str_eq(a.kind.as_str(), b.kind.as_str()) && str_eq(a.from_id.as_str(), b.from_id.as_str()) && str_eq(
        a.to_id.as_str(),
        b.to_id.as_str(),
    )
}

/// Puts an edge into a strictly ascending list unless it is already there.
fn insert_edge(edges: &mut Vec<DependencyEdge>, e: DependencyEdge)
    requires
        edges_ascending(edge_keys(old(edges)@)),
    ensures
        edges_ascending(edge_keys(final(edges)@)),
        edge_keys(final(edges)@).to_set() == edge_keys(old(edges)@).to_set().insert(edge_key(e)),
{
    let ghost before = edge_keys(edges@);
    let ghost ek = edge_key(e);
    let mut p: usize = 0;
    while p < edges.len() && edge_less(&edges[p], &e)
        invariant
            p <= edges@.len(),
            before == edge_keys(edges@),
            ek == edge_key(e),
            forall|q: int| 0 <= q < p ==> edge_key_lt(#[trigger] before[q], ek),
        decreases edges@.len() - p,
    {
        p = p + 1;
    }
    if p < edges.len() && same_edge(&edges[p], &e) {
        proof {
            assert(before[p as int] == ek);
            assert(before.to_set().insert(ek) =~= before.to_set());
        }
        return;
    }
    proof {
        if p < before.len() {
            assert(before[p as int] != ek);
            lemma_edge_key_total(ek, before[p as int]);
        }
    }
    edges.insert(p, e);
    proof {
        let now = edge_keys(edges@);
        assert(now =~= before.insert(p as int, ek));
        assert forall|a: int, b: int| 0 <= a < b < now.len() implies edge_key_lt(#[trigger] now[a], #[trigger] now[b]) by {
            if a == p {
                assert(now[b] == before[b - 1]);
                if b - 1 > p {
                    lemma_edge_key_transitive(ek, before[p as int], before[b - 1]);
                }
            } else if b == p {
                assert(now[a] == before[a]);
            } else if a < p && b > p {
                assert(now[a] == before[a] && now[b] == before[b - 1]);
            } else if a > p {
                assert(now[a] == before[a - 1] && now[b] == before[b - 1]);
            } else {
                assert(now[a] == before[a] && now[b] == before[b]);
            }
        }
        assert forall|x: EdgeKey| #[trigger] now.to_set().contains(x) == before.to_set().insert(ek).contains(x) by {
            if now.contains(x) {
                let k = choose|k: int| 0 <= k < now.len() && now[k] == x;
                if k < p {
                    assert(before[k] == x);
                } else if k > p {
                    assert(before[k - 1] == x);
                }
            }
            if before.contains(x) {
                let k = choose|k: int| 0 <= k < before.len() && before[k] == x;
                if k < p {
                    assert(now[k] == x);
                } else {
                    assert(now[k + 1] == x);
                }
            }
            if x == ek {
                assert(now[p as int] == ek);
            }
        }
        assert(now.to_set() =~= before.to_set().insert(ek));
    }
}

/// The edges in (kind, from, to) order, each once.
pub fn sorted_edges(edges: Vec<DependencyEdge>) -> (r: Vec<DependencyEdge>)
    ensures
        edges_ascending(edge_keys(r@)),
        edge_keys(r@).to_set() == edge_keys(edges@).to_set(),
{
    let ghost all = edge_keys(edges@);
    let mut rest = edges;
    let mut out: Vec<DependencyEdge> = Vec::new();
    proof {
        assert(edge_keys(out@).to_set() =~= Set::<EdgeKey>::empty());
        assert(edge_keys(rest@) == all);
    }
    while rest.len() > 0
        invariant
            edges_ascending(edge_keys(out@)),
            edge_keys(out@).to_set().union(edge_keys(rest@).to_set()) == all.to_set(),
        decreases rest@.len(),
    {
        let ghost r0 = rest@;
        let e = rest.pop().unwrap();
        proof {
            assert(r0 =~= rest@.push(e));
            assert(edge_keys(r0) =~= edge_keys(rest@).push(edge_key(e)));
            edge_keys(rest@).lemma_push_to_set_commute(edge_key(e));
        }
        let ghost o0 = edge_keys(out@).to_set();
        insert_edge(&mut out, e);
        proof {
            assert(edge_keys(out@).to_set().union(edge_keys(rest@).to_set()) =~= o0.union(edge_keys(r0).to_set()));
        }
    }
    proof {
        assert(edge_keys(rest@).to_set() =~= Set::<EdgeKey>::empty());
        assert(edge_keys(out@).to_set() =~= edge_keys(out@).to_set().union(edge_keys(rest@).to_set()));
    }
    out
}

/// A dataset that is only declared, never carried: device-local facts, and
/// credentials when the user keeps them out of the package.
pub open spec fn declared_only(policy: TransportPolicy, include_credentials: bool) -> bool {
    policy == TransportPolicy::DeviceLocal || (policy == TransportPolicy::Secret && !include_credentials)
}

/// The refusal when a selected dataset is no longer in the catalog.
pub open spec fn vanished_message(name: Seq<char>) -> Seq<char> {
    "数据集 "@ + name + " 在清单装配时消失（目录不一致）"@
}

/// The refusal when no adapter serves a dataset's owner.
pub open spec fn no_adapter_message(name: Seq<char>, owner: Seq<char>) -> Seq<char> {
    "数据集 "@ + name + " 的 owner（"@ + owner + "）没有登记适配器"@
}

/// Why a selected dataset cannot be assembled, if it cannot: the first
/// descriptor of its name is missing, or no adapter serves its owner.
pub open spec fn step_error(ds: Seq<DatasetDescriptor>, owners: Seq<Seq<char>>, name: Seq<char>) -> Option<Seq<char>> {
    match first_named(ds, name) {
        None => Some(vanished_message(name)),
        Some(i) => if owners.contains(ds[i].owner@) {
            None
        } else {
            Some(no_adapter_message(name, ds[i].owner@))
        },
    }
}

/// What one selected dataset needs.
#[derive(Debug, PartialEq, Eq, Clone, Copy)]
pub struct ExportStep {
    /// Position of its descriptor (the first of its name).
    pub descriptor: usize,
    /// Its adapter exports its records into the package; otherwise it is only declared.
    pub carry: bool,
}

/// The steps of an export, one per selected dataset in the order of the
/// resolved selection, up to the first dataset that cannot be assembled.
#[derive(Debug)]
pub struct ExportPlan {
    /// Steps of the datasets before the failure (all of them without one).
    pub steps: Vec<ExportStep>,
    /// Why the next selected dataset cannot be assembled.
    pub failure: Option<String>,
}

/// `step` is what the selected dataset `name` needs.
pub open spec fn plans(
    step: ExportStep,
    ds: Seq<DatasetDescriptor>,
    name: Seq<char>,
    include_credentials: bool,
) -> bool {
    &&& first_named(ds, name) == Some(step.descriptor as int)
    &&& step.carry == !declared_only(ds[step.descriptor as int].policy, include_credentials)
}

/// `"数据集 " + name + tail`.
fn dataset_text(name: &str, tail: &str) -> (r: String)
    ensures
        r@ == "数据集 "@ + name@ + tail@,
{
    let mut m = owned("数据集 ");
    m.append(name);
    m.append(tail);
    m
}

/// Whether an adapter serves `owner`.
fn served(owners: &Vec<String>, owner: &str) -> (r: bool)
    ensures
        r == views(owners@).contains(owner@),
{
    let mut i: usize = 0;
    while i < owners.len()
        invariant
            i <= owners@.len(),
            forall|k: int| 0 <= k < i ==> (#[trigger] owners@[k])@ != owner@,
        decreases owners@.len() - i,
    {
        if str_eq(owners[i].as_str(), owner) {
            assert(views(owners@)[i as int] == owner@);
            return true;
        }
        i = i + 1;
    }
    proof {
        if views(owners@).contains(owner@) {
            let k = choose|k: int| 0 <= k < views(owners@).len() && views(owners@)[k] == owner@;
            assert(owners@[k]@ == owner@);
        }
    }
    false
}

/// What each selected dataset needs, in the order of the resolved
/// selection: the first descriptor of its name, and whether its records
/// travel. `owners` are the owners that an adapter serves. The plan stops at
/// the first dataset whose descriptor is gone or whose owner no adapter
/// serves, and gives the reason.
pub fn plan_export(descriptors: &Vec<DatasetDescriptor>, resolved: &ResolvedSelection, owners: &Vec<String>) -> (r:
    ExportPlan)
    ensures
        r.steps@.len() <= resolved.datasets@.len(),
        forall|k: int|
            0 <= k < r.steps@.len() ==> step_error(descriptors@, views(owners@), #[trigger] resolved.datasets@[k].0@)
                is None && plans(r.steps@[k], descriptors@, resolved.datasets@[k].0@, resolved.include_credentials),
        r.failure is None <==> r.steps@.len() == resolved.datasets@.len(),
        r.failure matches Some(m) ==> step_error(
            descriptors@,
            views(owners@),
            resolved.datasets@[r.steps@.len() as int].0@,
        ) == Some(m@),
{
    let mut steps: Vec<ExportStep> = Vec::new();
    let mut k: usize = 0;
    while k < resolved.datasets.len()
        invariant
            k <= resolved.datasets@.len(),
            steps@.len() == k,
            forall|j: int|
                0 <= j < k ==> step_error(descriptors@, views(owners@), #[trigger] resolved.datasets@[j].0@) is None
                    && plans(steps@[j], descriptors@, resolved.datasets@[j].0@, resolved.include_credentials),
        decreases resolved.datasets@.len() - k,
    {
        let name = resolved.datasets[k].0.as_str();
        proof {
            lemma_first_named(descriptors@, name@);
        }
        match find_first(descriptors, name) {
            None => {
                let m = dataset_text(name, " 在清单装配时消失（目录不一致）");
                return ExportPlan { steps, failure: Some(m) };
            },
            Some(i) => {
                let d = &descriptors[i];
                if !served(owners, d.owner.as_str()) {
                    let mut m = dataset_text(name, " 的 owner（");
                    m.append(d.owner.as_str());
                    m.append("）没有登记适配器");
                    return ExportPlan { steps, failure: Some(m) };
                }
                let only_declared = match d.policy {
                    TransportPolicy::DeviceLocal => true,
                    TransportPolicy::Secret => !resolved.include_credentials,
                    _ => false,
                };
                steps.push(ExportStep { descriptor: i, carry: !only_declared });
            },
        }
        k = k + 1;
    }
    ExportPlan { steps, failure: None }
}

/// The refusal when an export brought another number of records than selected.
pub open spec fn count_mismatch_message(name: Seq<char>, actual: nat, wanted: nat) -> Seq<char> {
    "数据集 "@ + name + " 实际导出 "@ + decimal_spec(actual) + " 条，与选择集 "@ + decimal_spec(wanted)
        + " 条不一致（记录可能在选择期间被删除，请刷新后重试）"@
}

/// The block of a dataset whose adapter exported `items` (serialized as
/// `serialized`) for `wanted` selected records. A dataset that offers
/// entries must bring exactly the selected number; a whole dataset brings
/// what it has.
pub fn carried_block(descriptor: &DatasetDescriptor, wanted: usize, serialized: Vec<u8>, items: Vec<RecordBody>) -> (r:
    Result<DatasetBlock, String>)
    ensures
        descriptor.entries@.len() > 0 && items@.len() != wanted ==> r is Err && r->Err_0@ == count_mismatch_message(
            descriptor.name@,
            items@.len() as nat,
            wanted as nat,
        ),
        !(descriptor.entries@.len() > 0 && items@.len() != wanted) ==> (r matches Ok(b) && b.name@ == descriptor.name@
            && b.schema_version == descriptor.schema_version && b.policy == descriptor.policy && b.record_count
            == items@.len() && b.sha256@ == hex_spec(sha256_of(serialized@)) && b.records == Some(
            CarriedRecords::Array { serialized, items },
        )),
{
    if descriptor.entries.len() > 0 && items.len() != wanted {
        let actual = decimal(items.len() as u64);
        let want = decimal(wanted as u64);
        let mut m = dataset_text(descriptor.name.as_str(), " 实际导出 ");
        m.append(actual.as_str());
        m.append(" 条，与选择集 ");
        m.append(want.as_str());
        m.append(" 条不一致（记录可能在选择期间被删除，请刷新后重试）");
        return Err(m);
    }
    Ok(block_carrying(descriptor, serialized, items))
}

/// Names of the catalog's datasets that the selection left out although
/// they had something to offer (selectable, or with entries), in catalog
/// order.
pub open spec fn excluded_names(ds: Seq<DatasetDescriptor>, picked: Seq<Seq<char>>) -> Seq<Seq<char>>
    decreases ds.len(),
{
    if ds.len() == 0 {
        Seq::empty()
    } else {
        let prev = excluded_names(ds.drop_last(), picked);
        let d = ds.last();
        if !picked.contains(d.name@) && (d.selectable || d.entries@.len() > 0) {
            prev.push(d.name@)
        } else {
            prev
        }
    }
}

/// The exclusions of a selection.
fn exclusions(descriptors: &Vec<DatasetDescriptor>, resolved: &ResolvedSelection) -> (r: Vec<String>)
    ensures
        views(r@) == excluded_names(descriptors@, resolved_names(resolved.datasets@)),
{
    let ghost picked = resolved_names(resolved.datasets@);
    let mut out: Vec<String> = Vec::new();
    let mut i: usize = 0;
    while i < descriptors.len()
        invariant
            i <= descriptors@.len(),
            picked == resolved_names(resolved.datasets@),
            views(out@) == excluded_names(descriptors@.subrange(0, i as int), picked),
        decreases descriptors@.len() - i,
    {
        let d = &descriptors[i];
        let taken = resolved.includes(d.name.as_str());
        proof {
            let sub = descriptors@.subrange(0, i + 1);
            assert(sub.drop_last() =~= descriptors@.subrange(0, i as int));
            assert(sub.last() == descriptors@[i as int]);
            if taken {
                let j = choose|j: int| 0 <= j < resolved.datasets@.len() && (#[trigger] resolved.datasets@[j]).0@ == d.name@;
                assert(picked[j] == d.name@);
            } else {
                if picked.contains(d.name@) {
                    let j = choose|j: int| 0 <= j < picked.len() && picked[j] == d.name@;
                    assert(resolved.datasets@[j].0@ == d.name@);
                }
            }
        }
        if !taken && (d.selectable || d.entries.len() > 0) {
            out.push(d.name.clone());
            proof {
                assert(views(out@) =~= views(out@.drop_last()).push(d.name@));
            }
        }
        i = i + 1;
    }
    assert(descriptors@.subrange(0, descriptors@.len() as int) =~= descriptors@);
    out
}

/// `m` is `skeleton` completed with `blocks`, the exclusions of the
/// selection, and the skeleton's edges and `edges` sorted without repeats.
pub open spec fn assembled(
    m: PackageManifest,
    skeleton: PackageManifest,
    blocks: Seq<DatasetBlock>,
    edges: Seq<DependencyEdge>,
    ds: Seq<DatasetDescriptor>,
    resolved: ResolvedSelection,
) -> bool {
    &&& m.package_id == skeleton.package_id
    &&& m.source_space_id == skeleton.source_space_id
    &&& m.source_space_name == skeleton.source_space_name
    &&& m.created_at == skeleton.created_at
    &&& m.app_version == skeleton.app_version
    &&& m.platform == skeleton.platform
    &&& m.datasets@ == blocks
    &&& views(m.excluded@) == excluded_names(ds, resolved_names(resolved.datasets@))
    &&& edges_ascending(edge_keys(m.dependencies@))
    &&& edge_keys(m.dependencies@).to_set() == edge_keys(skeleton.dependencies@ + edges).to_set()
}

/// Completes the manifest of an export: the blocks in the order given, the
/// datasets the selection left out, the edges sorted without repeats; then
/// the manifest's own check. A refusal is the check's, which looks only at
/// the package id and the blocks.
pub fn finish_manifest(
    skeleton: PackageManifest,
    blocks: Vec<DatasetBlock>,
    edges: Vec<DependencyEdge>,
    descriptors: &Vec<DatasetDescriptor>,
    resolved: &ResolvedSelection,
) -> (r: Result<PackageManifest, String>)
    requires
        shapes_fit(blocks@),
    ensures
        r matches Ok(m) ==> manifest_error(m) is None && assembled(
            m,
            skeleton,
            blocks@,
            edges@,
            descriptors@,
            *resolved,
        ),
        r matches Err(e) ==> forall|m: PackageManifest|
            m.package_id == skeleton.package_id && m.datasets@ == blocks@ ==> manifest_error(m) == Some(e@),
        r is Ok <==> forall|m: PackageManifest|
            m.package_id == skeleton.package_id && m.datasets@ == blocks@ ==> manifest_error(m) is None,
{
    let ghost blocks0 = blocks@;
    let excluded = exclusions(descriptors, resolved);
    let PackageManifest {
        package_id,
        source_space_id,
        source_space_name,
        created_at,
        app_version,
        platform,
        datasets: _,
        dependencies,
        excluded: _,
    } = skeleton;
    let ghost deps0 = dependencies@;
    let mut all = dependencies;
    let mut more = edges;
    all.append(&mut more);
    assert(all@ == deps0 + edges@);
    let dependencies = sorted_edges(all);
    let m = PackageManifest {
        package_id,
        source_space_id,
        source_space_name,
        created_at,
        app_version,
        platform,
        datasets: blocks,
        dependencies,
        excluded,
    };
    match validate_manifest(&m) {
        Ok(()) => {
            assert forall|m2: PackageManifest|
                m2.package_id == skeleton.package_id && m2.datasets@ == blocks0 implies manifest_error(m2) is None by {
                assert(m2.package_id@ == m.package_id@);
            }
            Ok(m)
        },
        Err(e) => {
            assert forall|m2: PackageManifest|
                m2.package_id == skeleton.package_id && m2.datasets@ == blocks0 implies manifest_error(m2) == Some(
                e@,
            ) by {
                assert(m2.package_id@ == m.package_id@);
            }
            Err(e)
        },
    }
}

} // verus!
