//! Planning an isolated import: from a package manifest and the user's
//! selection to the blocks that will be written into a new space and a
//! verdict for every record (added, pending a reference, excluded). The plan
//! never touches the disk; refusals are decided block by block in package
//! order (unknown dataset, newer schema, device-local block, no adapter,
//! record body not an array).

use vstd::prelude::*;

use crate::data_transfer::manifest::{carried_items, CarriedRecords, DatasetBlock, PackageManifest, RecordBody};
use crate::data_transfer::package_view::{
    block_counts, count_views, dataset_counts, find_first, first_named, last_count, lemma_first_named, opt_text,
};
use crate::data_transfer::storage_files::{insert_unique, strictly_ascending};
use crate::data_transfer::types::{DatasetDescriptor, ImportSelection, TransportPolicy};
use crate::text::{decimal, decimal_spec, owned, str_eq, views};

verus! {

/// What becomes of a record on import.
#[derive(Clone, Copy, Debug, PartialEq, Eq, Structural)]
pub enum ImportOutcome {
    /// Written into the new space.
    Added,
    /// Written, but what it refers to did not come along (to be completed later).
    PendingReference,
    /// Not brought in this time.
    Excluded,
}

/// One line of the import preview.
#[derive(Debug, PartialEq, Eq)]
pub struct ImportPlanItem {
    /// Dataset.
    pub dataset: String,
    /// Record id (empty for a whole dataset).
    pub id: String,
    /// Display name.
    pub label: String,
    /// What becomes of it.
    pub outcome: ImportOutcome,
    /// Why, where there is something to say.
    pub note: Option<String>,
}

/// An item as (dataset, id, label, outcome, note).
pub type ItemView = (Seq<char>, Seq<char>, Seq<char>, ImportOutcome, Option<Seq<char>>);

/// The view of an item.
pub open spec fn item_view(i: ImportPlanItem) -> ItemView {
    (i.dataset@, i.id@, i.label@, i.outcome, opt_text(i.note))
}

/// The views of a sequence of items.
pub open spec fn item_views(s: Seq<ImportPlanItem>) -> Seq<ItemView> {
    s.map_values(|i: ImportPlanItem| item_view(i))
}

impl ImportPlanItem {
    /// A record that will be written into the new space.
    pub fn added(dataset: &str, id: &str, label: &str) -> (r: ImportPlanItem)
        ensures
            item_view(r) == (dataset@, id@, label@, ImportOutcome::Added, None::<Seq<char>>),
    {
        ImportPlanItem { dataset: owned(dataset), id: owned(id), label: owned(label), outcome: ImportOutcome::Added, note: None }
    }

    /// A record that will be written though what it refers to did not come along.
    pub fn pending_reference(dataset: &str, id: &str, label: &str, note: &str) -> (r: ImportPlanItem)
        ensures
            item_view(r) == (dataset@, id@, label@, ImportOutcome::PendingReference, Some(note@)),
    {
        ImportPlanItem {
            dataset: owned(dataset),
            id: owned(id),
            label: owned(label),
            outcome: ImportOutcome::PendingReference,
            note: Some(owned(note)),
        }
    }

    /// A dataset not brought in this time (no record id).
    pub fn excluded(dataset: &str, label: &str, note: &str) -> (r: ImportPlanItem)
        ensures
            item_view(r) == (dataset@, Seq::<char>::empty(), label@, ImportOutcome::Excluded, Some(note@)),
    {
        let id = String::new();
        ImportPlanItem { dataset: owned(dataset), id, label: owned(label), outcome: ImportOutcome::Excluded, note: Some(owned(note)) }
    }
}

/// What a package carries of one dataset.
#[derive(Debug, PartialEq, Eq)]
pub struct CarriedBlock {
    /// Declared record count (also when only declared).
    pub record_count: usize,
    /// Record ids, ascending; `None`: records without ids (a whole dataset)
    /// or none carried.
    pub ids: Option<Vec<String>>,
}

/// The ids of a carried block as a set.
pub open spec fn carried_ids(c: CarriedBlock) -> Option<Set<Seq<char>>> {
    match c.ids {
        Some(v) => Some(views(v@).to_set()),
        None => None,
    }
}

/// What the adapters judge against: which datasets came along and with which ids.
#[derive(Debug, PartialEq, Eq)]
pub struct ImportContext {
    /// Source space id (untrusted, shown only).
    pub source_space_id: String,
    /// Dataset name and what the package carries of it; a later entry of a
    /// name replaces an earlier one. A name that is absent did not come along.
    pub carried: Vec<(String, CarriedBlock)>,
}

/// What the context holds for `name`: its last entry.
pub open spec fn carried_lookup(s: Seq<(String, CarriedBlock)>, name: Seq<char>) -> Option<CarriedBlock>
    decreases s.len(),
{
    if s.len() == 0 {
        None
    } else if s.last().0@ == name {
        Some(s.last().1)
    } else {
        carried_lookup(s.drop_last(), name)
    }
}

/// The last entry of a name, by position.
fn find_last(s: &Vec<(String, CarriedBlock)>, name: &str) -> (r: Option<usize>)
    ensures
        r matches Some(i) ==> i < s@.len() && carried_lookup(s@, name@) == Some(s@[i as int].1),
        r is None ==> carried_lookup(s@, name@) is None,
{
    let mut k: usize = s.len();
    assert(s@.subrange(0, k as int) =~= s@);
    while k > 0
        invariant
            k <= s@.len(),
            carried_lookup(s@, name@) == carried_lookup(s@.subrange(0, k as int), name@),
        decreases k,
    {
        let sub = Ghost(s@.subrange(0, k as int));
        proof {
            assert(sub@.drop_last() =~= s@.subrange(0, k - 1));
            assert(sub@.last() == s@[k - 1]);
        }
        if str_eq(s[k - 1].0.as_str(), name) {
            return Some(k - 1);
        }
        k = k - 1;
    }
    None
}

/// Whether `id` is among the ids.
fn has_id(ids: &Vec<String>, id: &str) -> (r: bool)
    ensures
        r == views(ids@).contains(id@),
{
    let mut i: usize = 0;
    while i < ids.len()
        invariant
            i <= ids@.len(),
            forall|k: int| 0 <= k < i ==> (#[trigger] ids@[k])@ != id@,
        decreases ids@.len() - i,
    {
        if str_eq(ids[i].as_str(), id) {
            assert(views(ids@)[i as int] == id@);
            return true;
        }
        i = i + 1;
    }
    proof {
        if views(ids@).contains(id@) {
            let k = choose|k: int| 0 <= k < views(ids@).len() && views(ids@)[k] == id@;
            assert(ids@[k]@ == id@);
        }
    }
    false
}

impl ImportContext {
    /// Whether the package carries records of the dataset.
    pub fn is_carried(&self, dataset: &str) -> (r: bool)
        ensures
            r == match carried_lookup(self.carried@, dataset@) {
                Some(c) => c.ids is Some || c.record_count > 0,
                None => false,
            },
    {
        match find_last(&self.carried, dataset) {
            Some(i) => self.carried[i].1.ids.is_some() || self.carried[i].1.record_count > 0,
            None => false,
        }
    }

    /// Whether the record with this id is really in the package.
    pub fn carries_id(&self, dataset: &str, id: &str) -> (r: bool)
        ensures
            r == match carried_lookup(self.carried@, dataset@) {
                Some(c) => match carried_ids(c) {
                    Some(s) => s.contains(id@),
                    None => false,
                },
                None => false,
            },
    {
        match find_last(&self.carried, dataset) {
            Some(i) => match &self.carried[i].1.ids {
                Some(ids) => has_id(ids, id),
                None => false,
            },
            None => false,
        }
    }

    /// Whether the id is referred to but not in the package (the dataset did
    /// not come along, or came with ids and this one is missing).
    pub fn declared_without_id(&self, dataset: &str, id: &str) -> (r: bool)
        ensures
            r == match carried_lookup(self.carried@, dataset@) {
                None => true,
                Some(c) => match carried_ids(c) {
                    None => false,
                    Some(s) => !s.contains(id@),
                },
            },
    {
        match find_last(&self.carried, dataset) {
            None => true,
            Some(i) => match &self.carried[i].1.ids {
                None => false,
                Some(ids) => !has_id(ids, id),
            },
        }
    }
}

/// The `id` string field of a serialized record, as `serde_json` reads it.
pub uninterp spec fn json_id_of(bytes: Seq<u8>) -> Option<Seq<char>>;

/// The record's `id` when it is a string: `serde_json::from_slice` into a
/// `Value`, then `get("id")` and `as_str`. Trusted to be the named reading of
/// exactly these bytes.
#[verifier::external_body]
fn record_id(bytes: &[u8]) -> (r: Option<String>)
    ensures
        opt_text(r) == json_id_of(bytes@),
{
    let value: Option<serde_json::Value> = serde_json::from_slice(bytes).ok();
    value.and_then(|v| v.get("id").and_then(serde_json::Value::as_str).map(str::to_string))
}

/// The ids of the records.
pub open spec fn record_ids(items: Seq<RecordBody>) -> Seq<Option<Seq<char>>> {
    items.map_values(|r: RecordBody| json_id_of(r.bytes@))
}

/// Every record has an id and no two share one.
pub open spec fn ids_complete(ids: Seq<Option<Seq<char>>>) -> bool {
    &&& forall|i: int| 0 <= i < ids.len() ==> (#[trigger] ids[i]) is Some
    &&& forall|i: int, j: int| 0 <= i < j < ids.len() ==> #[trigger] ids[i] != #[trigger] ids[j]
}

/// The ids that occur.
pub open spec fn id_set(ids: Seq<Option<Seq<char>>>) -> Set<Seq<char>> {
    Set::new(|x: Seq<char>| ids.contains(Some(x)))
}

/// What a package carries of a block: for a record array, its length and,
/// when every record has its own id, those ids; otherwise the declared
/// count and no ids.
pub open spec fn carried_of(b: DatasetBlock) -> (nat, Option<Set<Seq<char>>>) {
    match b.records {
        Some(CarriedRecords::Array { serialized, items }) => (
            items@.len(),
            if ids_complete(record_ids(items@)) {
                Some(id_set(record_ids(items@)))
            } else {
                None
            },
        ),
        _ => (b.record_count as nat, None),
    }
}

/// The ids of a record array, when every record has its own id.
fn ids_of_records(items: &Vec<RecordBody>) -> (r: Option<Vec<String>>)
    ensures
        ids_complete(record_ids(items@)) ==> (r matches Some(v) && views(v@).to_set() == id_set(record_ids(items@))
            && strictly_ascending(views(v@))),
        !ids_complete(record_ids(items@)) ==> r is None,
{
    let ghost all = record_ids(items@);
    let mut ids: Vec<String> = Vec::new();
    let mut complete = true;
    let mut k: usize = 0;
    proof {
        assert(views(ids@).to_set() =~= id_set(all.subrange(0, 0)));
    }
    while k < items.len()
        invariant
            k <= items@.len(),
            all == record_ids(items@),
            strictly_ascending(views(ids@)),
            complete == ids_complete(all.subrange(0, k as int)),
            views(ids@).to_set() == id_set(all.subrange(0, k as int)),
        decreases items@.len() - k,
    {
        let ghost pre = all.subrange(0, k as int);
        let ghost next = all.subrange(0, k + 1);
        proof {
            assert(next =~= pre.push(all[k as int]));
        }
        match record_id(items[k].bytes.as_slice()) {
            None => {
                proof {
                    assert(all[k as int] is None);
                    assert(next[k as int] is None);
                    assert forall|x: Seq<char>| #[trigger] id_set(next).contains(x) == id_set(pre).contains(x) by {
                        if next.contains(Some(x)) {
                            let j = choose|j: int| 0 <= j < next.len() && next[j] == Some(x);
                            assert(j < k);
                            assert(pre[j] == Some(x));
                        }
                        if pre.contains(Some(x)) {
                            let j = choose|j: int| 0 <= j < pre.len() && pre[j] == Some(x);
                            assert(next[j] == Some(x));
                        }
                    }
                    assert(id_set(next) =~= id_set(pre));
                }
                complete = false;
            },
            Some(id) => {
                let ghost x = id@;
                proof {
                    assert(all[k as int] == Some(x));
                }
                let added = insert_unique(&mut ids, id);
                proof {
                    assert forall|y: Seq<char>| #[trigger] id_set(next).contains(y) == id_set(pre).insert(x).contains(y) by {
                        if next.contains(Some(y)) {
                            let j = choose|j: int| 0 <= j < next.len() && next[j] == Some(y);
                            if j < k {
                                assert(pre[j] == Some(y));
                            }
                        }
                        if pre.contains(Some(y)) {
                            let j = choose|j: int| 0 <= j < pre.len() && pre[j] == Some(y);
                            assert(next[j] == Some(y));
                        }
                        if y == x {
                            assert(next[k as int] == Some(x));
                        }
                    }
                    assert(id_set(next) =~= id_set(pre).insert(x));
                    // The new id repeats an earlier one exactly when it was already there.
                    assert(views(ids@).to_set() == id_set(next));
                    if ids_complete(pre) && added {
                        assert forall|i: int, j: int| 0 <= i < j < next.len() implies #[trigger] next[i] != #[trigger] next[j] by {
                            if j == k && next[i] == next[j] {
                                assert(pre[i] == Some(x));
                                assert(id_set(pre).contains(x));
                            }
                        }
                    }
                    if ids_complete(pre) && !added {
                        let old_views = id_set(pre);
                        assert(old_views.contains(x));
                        let j = choose|j: int| 0 <= j < pre.len() && pre[j] == Some(x);
                        assert(next[j] == next[k as int]);
                    }
                    if !ids_complete(pre) {
                        if forall|i: int| 0 <= i < pre.len() ==> (#[trigger] pre[i]) is Some {
                            let (i, j) = choose|i: int, j: int| 0 <= i < j < pre.len() && #[trigger] pre[i] == #[trigger] pre[j];
                            assert(next[i] == next[j]);
                        } else {
                            let i = choose|i: int| 0 <= i < pre.len() && !((#[trigger] pre[i]) is Some);
                            assert(next[i] == pre[i]);
                        }
                    }
                }
                complete = complete && added;
            },
        }
        k = k + 1;
    }
    assert(all.subrange(0, items@.len() as int) =~= all);
    if complete {
        Some(ids)
    } else {
        None
    }
}

/// `c` is the context of an import of `m`: the source space, and for each
/// block of the package, in order, what it carries.
pub open spec fn context_of(c: ImportContext, m: PackageManifest) -> bool {
    &&& c.source_space_id@ == m.source_space_id@
    &&& c.carried@.len() == m.datasets@.len()
    &&& forall|k: int|
        0 <= k < c.carried@.len() ==> (#[trigger] c.carried@[k]).0@ == m.datasets@[k].name@ && (
        c.carried@[k].1.record_count as nat, carried_ids(c.carried@[k].1)) == carried_of(m.datasets@[k]) && (
        c.carried@[k].1.ids matches Some(v) ==> strictly_ascending(views(v@)))
}

/// The context of an import: for each block of the package, in order, what
/// it carries.
pub fn import_context(manifest: &PackageManifest) -> (r: ImportContext)
    ensures
        context_of(r, *manifest),
{
    let mut carried: Vec<(String, CarriedBlock)> = Vec::new();
    let mut k: usize = 0;
    while k < manifest.datasets.len()
        invariant
            k <= manifest.datasets@.len(),
            carried@.len() == k,
            forall|j: int|
                0 <= j < k ==> (#[trigger] carried@[j]).0@ == manifest.datasets@[j].name@ && (
                carried@[j].1.record_count as nat, carried_ids(carried@[j].1)) == carried_of(manifest.datasets@[j])
                    && (carried@[j].1.ids matches Some(v) ==> strictly_ascending(views(v@))),
        decreases manifest.datasets@.len() - k,
    {
        let b = &manifest.datasets[k];
        let entry = match &b.records {
            Some(CarriedRecords::Array { serialized: _, items }) => {
                let ids = ids_of_records(items);
                CarriedBlock { record_count: items.len(), ids }
            },
            _ => CarriedBlock { record_count: b.record_count, ids: None },
        };
        carried.push((b.name.clone(), entry));
        k = k + 1;
    }
    ImportContext { source_space_id: manifest.source_space_id.clone(), carried }
}

/// Refusal of a block whose dataset this application does not know.
pub open spec fn unknown_block_message(name: Seq<char>) -> Seq<char> {
    "数据包包含本应用不认识的数据集 "@ + name + "（请升级应用后重试）"@
}

/// Refusal of a block written by a newer schema than ours.
pub open spec fn newer_schema_message(name: Seq<char>, theirs: nat, ours: nat) -> Seq<char> {
    "数据集 "@ + name + " 的 schema 版本 "@ + decimal_spec(theirs) + " 高于当前应用支持的 "@ + decimal_spec(ours)
        + "（请升级应用后重试）"@
}

/// Refusal of a device-local block.
pub open spec fn device_local_message(name: Seq<char>) -> Seq<char> {
    "数据集 "@ + name + " 声明为本机事实，不允许导入"@
}

/// Refusal of a block whose owner no adapter serves.
pub open spec fn unregistered_message(name: Seq<char>, owner: Seq<char>) -> Seq<char> {
    "数据集 "@ + name + " 的适配器（"@ + owner + "）未登记"@
}

/// Refusal of a block whose record body is not an array.
pub open spec fn not_array_message(name: Seq<char>) -> Seq<char> {
    "数据集 "@ + name + " 的记录体不是数组"@
}

/// Note of a dataset the user did not select.
pub open spec fn unselected_note() -> Seq<char> {
    "本次未选择导入"@
}

/// Note of a dataset that was only declared.
pub open spec fn declared_only_note(count: nat) -> Seq<char> {
    "包内只声明了 "@ + decimal_spec(count) + " 条，未携带记录"@
}

/// Refusal of a plan that would write nothing.
pub open spec fn nothing_to_import_message() -> Seq<char> {
    "本次选择没有可导入的数据"@
}

/// The verdict on one block, given the descriptors, the selected names and
/// the owners an adapter serves: refused (`Err`), excluded with a note
/// (`Ok((d, Some(note)))`), or handed to its adapter (`Ok((d, None))`),
/// `d` being the first descriptor of its name.
pub open spec fn block_step(
    b: DatasetBlock,
    ds: Seq<DatasetDescriptor>,
    sel: Seq<Seq<char>>,
    owners: Seq<Seq<char>>,
) -> Result<(int, Option<Seq<char>>), Seq<char>> {
    match first_named(ds, b.name@) {
        None => Err(unknown_block_message(b.name@)),
        Some(d) => if !sel.contains(b.name@) {
            Ok((d, Some(unselected_note())))
        } else if ds[d].schema_version < b.schema_version {
            Err(newer_schema_message(b.name@, b.schema_version as nat, ds[d].schema_version as nat))
        } else if b.policy == TransportPolicy::DeviceLocal {
            Err(device_local_message(b.name@))
        } else if !owners.contains(ds[d].owner@) {
            Err(unregistered_message(b.name@, ds[d].owner@))
        } else {
            match b.records {
                Some(CarriedRecords::NotArray) => Err(not_array_message(b.name@)),
                None => Ok((d, Some(declared_only_note(b.record_count as nat)))),
                Some(CarriedRecords::Array { serialized, items }) => Ok((d, None)),
            }
        },
    }
}

/// The verdict on one block.
#[derive(Debug, PartialEq, Eq)]
pub enum ImportStep {
    /// Not brought in, for the reason given.
    Exclude { descriptor: usize, note: String },
    /// Its records go to the adapter of its owner.
    Plan { descriptor: usize },
}

/// An import step as in `block_step`.
pub open spec fn step_view(s: ImportStep) -> (int, Option<Seq<char>>) {
    match s {
        ImportStep::Exclude { descriptor, note } => (descriptor as int, Some(note@)),
        ImportStep::Plan { descriptor } => (descriptor as int, None),
    }
}

/// Whether an adapter serves `owner`.
fn served(owners: &Vec<String>, owner: &str) -> (r: bool)
    ensures
        r == views(owners@).contains(owner@),
{
    has_id(owners, owner)
}

/// `"数据集 " + name + tail`.
fn dataset_text(name: &str, tail: &str) -> (r: String)
    ensures
        r@ == "数据集 "@ + name@ + tail@,
{
    let mut m = owned("数据集 ");
    m.append(name);
    m.append(tail);
    m
}

/// The verdict on one block of a package.
pub fn import_step(block: &DatasetBlock, descriptors: &Vec<DatasetDescriptor>, selection: &ImportSelection, owners: &Vec<
    String,
>) -> (r: Result<ImportStep, String>)
    ensures
        match block_step(*block, descriptors@, views(selection.datasets@), views(owners@)) {
            Ok(v) => r matches Ok(s) && step_view(s) == v,
            Err(e) => r matches Err(m) && m@ == e,
        },
{
    let name = block.name.as_str();
    proof {
        lemma_first_named(descriptors@, name@);
    }
    let d = match find_first(descriptors, name) {
        None => {
            let mut m = owned("数据包包含本应用不认识的数据集 ");
            m.append(name);
            m.append("（请升级应用后重试）");
            return Err(m);
        },
        Some(d) => d,
    };
    let descriptor = &descriptors[d];
    if !selection.includes(name) {
        return Ok(ImportStep::Exclude { descriptor: d, note: owned("本次未选择导入") });
    }
    if descriptor.schema_version < block.schema_version {
        let theirs = decimal(block.schema_version as u64);
        let ours = decimal(descriptor.schema_version as u64);
        let mut m = dataset_text(name, " 的 schema 版本 ");
        m.append(theirs.as_str());
        m.append(" 高于当前应用支持的 ");
        m.append(ours.as_str());
        m.append("（请升级应用后重试）");
        return Err(m);
    }
    if let TransportPolicy::DeviceLocal = block.policy {
        return Err(dataset_text(name, " 声明为本机事实，不允许导入"));
    }
    if !served(owners, descriptor.owner.as_str()) {
        let mut m = dataset_text(name, " 的适配器（");
        m.append(descriptor.owner.as_str());
        m.append("）未登记");
        return Err(m);
    }
    match &block.records {
        Some(CarriedRecords::NotArray) => Err(dataset_text(name, " 的记录体不是数组")),
        None => {
            let count = decimal(block.record_count as u64);
            let mut note = owned("包内只声明了 ");
            note.append(count.as_str());
            note.append(" 条，未携带记录");
            Ok(ImportStep::Exclude { descriptor: d, note })
        },
        Some(CarriedRecords::Array { serialized: _, items: _ }) => Ok(ImportStep::Plan { descriptor: d }),
    }
}

/// The first refusal among the blocks, in order.
pub open spec fn refusal(
    bs: Seq<DatasetBlock>,
    ds: Seq<DatasetDescriptor>,
    sel: Seq<Seq<char>>,
    owners: Seq<Seq<char>>,
) -> Option<Seq<char>>
    decreases bs.len(),
{
    if bs.len() == 0 {
        None
    } else {
        match refusal(bs.drop_last(), ds, sel, owners) {
            Some(e) => Some(e),
            None => match block_step(bs.last(), ds, sel, owners) {
                Err(e) => Some(e),
                Ok(_) => None,
            },
        }
    }
}

/// How many blocks go to their adapters.
pub open spec fn asked(bs: Seq<DatasetBlock>, ds: Seq<DatasetDescriptor>, sel: Seq<Seq<char>>, owners: Seq<Seq<char>>) -> nat
    decreases bs.len(),
{
    if bs.len() == 0 {
        0
    } else {
        asked(bs.drop_last(), ds, sel, owners) + if block_step(bs.last(), ds, sel, owners) matches Ok((_, None)) {
            1nat
        } else {
            0nat
        }
    }
}

/// The adapters' verdicts, by call; a missing one counts as no items.
pub open spec fn out_at(outs: Seq<Seq<ItemView>>, k: int) -> Seq<ItemView> {
    if 0 <= k < outs.len() {
        outs[k]
    } else {
        Seq::empty()
    }
}

/// The preview: for each block in order, its exclusion line or what its
/// adapter said (`outs`, one entry per call).
pub open spec fn plan_items(
    bs: Seq<DatasetBlock>,
    ds: Seq<DatasetDescriptor>,
    sel: Seq<Seq<char>>,
    owners: Seq<Seq<char>>,
    outs: Seq<Seq<ItemView>>,
) -> Seq<ItemView>
    decreases bs.len(),
{
    if bs.len() == 0 {
        Seq::empty()
    } else {
        let prev = plan_items(bs.drop_last(), ds, sel, owners, outs);
        let b = bs.last();
        match block_step(b, ds, sel, owners) {
            Ok((d, Some(note))) => prev.push((b.name@, Seq::empty(), ds[d].label@, ImportOutcome::Excluded, Some(note))),
            Ok((d, None)) => prev + out_at(outs, asked(bs.drop_last(), ds, sel, owners) as int),
            Err(_) => prev,
        }
    }
}

/// The datasets not brought in, in block order.
pub open spec fn plan_excluded(
    bs: Seq<DatasetBlock>,
    ds: Seq<DatasetDescriptor>,
    sel: Seq<Seq<char>>,
    owners: Seq<Seq<char>>,
) -> Seq<Seq<char>>
    decreases bs.len(),
{
    if bs.len() == 0 {
        Seq::empty()
    } else {
        let prev = plan_excluded(bs.drop_last(), ds, sel, owners);
        if block_step(bs.last(), ds, sel, owners) matches Ok((_, Some(_))) {
            prev.push(bs.last().name@)
        } else {
            prev
        }
    }
}

/// Positions of the blocks to write: handed to their adapters and with records.
pub open spec fn planned_blocks(
    bs: Seq<DatasetBlock>,
    ds: Seq<DatasetDescriptor>,
    sel: Seq<Seq<char>>,
    owners: Seq<Seq<char>>,
) -> Seq<int>
    decreases bs.len(),
{
    if bs.len() == 0 {
        Seq::empty()
    } else {
        let prev = planned_blocks(bs.drop_last(), ds, sel, owners);
        if block_step(bs.last(), ds, sel, owners) matches Ok((_, None)) && carried_items(bs.last()).len() > 0 {
            prev.push(bs.len() - 1)
        } else {
            prev
        }
    }
}

/// Why a plan is refused: the first refused block, or nothing to write.
pub open spec fn plan_error(
    bs: Seq<DatasetBlock>,
    ds: Seq<DatasetDescriptor>,
    sel: Seq<Seq<char>>,
    owners: Seq<Seq<char>>,
) -> Option<Seq<char>> {
    match refusal(bs, ds, sel, owners) {
        Some(e) => Some(e),
        None => if planned_blocks(bs, ds, sel, owners).len() == 0 {
            Some(nothing_to_import_message())
        } else {
            None
        },
    }
}

/// A block to write into the new space.
#[derive(Debug)]
pub struct PlannedBlock {
    /// Dataset name.
    pub dataset: String,
    /// Owner whose adapter writes it.
    pub owner: String,
    /// The records (never empty).
    pub records: Vec<RecordBody>,
}

/// An import plan: what will be written, and the verdict on every record.
#[derive(Debug)]
pub struct ImportPlan {
    /// Plan id (suffix of the staging directory).
    pub plan_id: String,
    /// Id of the new space.
    pub space_id: String,
    /// Name of the new space.
    pub space_name: String,
    /// Package id.
    pub package_id: String,
    /// Source space id.
    pub source_space_id: String,
    /// Source space name.
    pub source_space_name: String,
    /// Declared count of each dataset of the package, by name.
    pub declared_counts: Vec<(String, usize)>,
    /// Blocks to write.
    pub blocks: Vec<PlannedBlock>,
    /// The verdict on every record.
    pub items: Vec<ImportPlanItem>,
    /// Datasets not brought in.
    pub excluded: Vec<String>,
}

/// The adapters' answers as views.
pub open spec fn item_tables(v: Seq<Vec<ImportPlanItem>>) -> Seq<Seq<ItemView>> {
    v.map_values(|x: Vec<ImportPlanItem>| item_views(x@))
}

/// `p` is the plan of the manifest `m` (blocks `bs`) for the selection,
/// the adapters having answered `outs`.
pub open spec fn plan_matches(
    p: ImportPlan,
    m: PackageManifest,
    ds: Seq<DatasetDescriptor>,
    sel: Seq<Seq<char>>,
    owners: Seq<Seq<char>>,
    outs: Seq<Seq<ItemView>>,
    space_id: Seq<char>,
    space_name: Seq<char>,
    plan_id: Seq<char>,
) -> bool {
    let bs = m.datasets@;
    let pos = planned_blocks(bs, ds, sel, owners);
    &&& p.plan_id@ == plan_id
    &&& p.space_id@ == space_id
    &&& p.space_name@ == space_name
    &&& p.package_id@ == m.package_id@
    &&& p.source_space_id@ == m.source_space_id@
    &&& p.source_space_name@ == m.source_space_name@
    &&& crate::data_transfer::package_view::strictly_ascending(count_views(p.declared_counts@))
    &&& forall|key: Seq<char>| #[trigger]
        last_count(count_views(p.declared_counts@), key) == last_count(block_counts(bs), key)
    &&& item_views(p.items@) == plan_items(bs, ds, sel, owners, outs)
    &&& views(p.excluded@) == plan_excluded(bs, ds, sel, owners)
    &&& p.blocks@.len() == pos.len()
    &&& forall|j: int|
        0 <= j < pos.len() ==> {
            &&& (#[trigger] p.blocks@[j]).dataset@ == bs[pos[j]].name@
            &&& p.blocks@[j].owner@ == ds[first_named(ds, bs[pos[j]].name@)->0].owner@
            &&& p.blocks@[j].records@ == carried_items(bs[pos[j]])
        }
}

/// The blocks up to position `k`.
proof fn lemma_prefix_step(bs: Seq<DatasetBlock>, k: int)
    requires
        0 <= k < bs.len(),
    ensures
        bs.subrange(0, k + 1).drop_last() == bs.subrange(0, k),
        bs.subrange(0, k + 1).last() == bs[k],
        bs.subrange(0, k + 1).len() == k + 1,
{
    assert(bs.subrange(0, k + 1).drop_last() =~= bs.subrange(0, k));
}

/// The views of a concatenation of items.
proof fn lemma_item_views_add(a: Seq<ImportPlanItem>, b: Seq<ImportPlanItem>)
    ensures
        item_views(a + b) == item_views(a) + item_views(b),
{
    assert(item_views(a + b) =~= item_views(a) + item_views(b));
}

/// The plan of a package for the selection, the adapters' answers being
/// `planned` (one entry per block handed to an adapter, in block order).
/// Refused at the first block that cannot be imported, or when nothing
/// would be written.
pub fn assemble_plan(
    manifest: PackageManifest,
    descriptors: &Vec<DatasetDescriptor>,
    selection: &ImportSelection,
    owners: &Vec<String>,
    planned: Vec<Vec<ImportPlanItem>>,
    space_id: &str,
    space_name: &str,
    plan_id: &str,
) -> (r: Result<ImportPlan, String>)
    ensures
        match plan_error(manifest.datasets@, descriptors@, views(selection.datasets@), views(owners@)) {
            Some(e) => r matches Err(m) && m@ == e,
            None => r matches Ok(p) && plan_matches(
                p,
                manifest,
                descriptors@,
                views(selection.datasets@),
                views(owners@),
                item_tables(planned@),
                space_id@,
                space_name@,
                plan_id@,
            ),
        },
{
    let ghost m0 = manifest;
    let ghost bs = manifest.datasets@;
    let ghost ds = descriptors@;
    let ghost sel = views(selection.datasets@);
    let ghost ow = views(owners@);
    let ghost outs = item_tables(planned@);
    let declared_counts = dataset_counts(&manifest);
    let PackageManifest {
        package_id,
        source_space_id,
        source_space_name,
        created_at: _,
        app_version: _,
        platform: _,
        datasets,
        dependencies: _,
        excluded: _,
    } = manifest;
    let n = datasets.len();
    let n_out = planned.len();
    let mut rest = datasets;
    let mut answers = planned;
    let mut items: Vec<ImportPlanItem> = Vec::new();
    let mut excluded: Vec<String> = Vec::new();
    let mut blocks: Vec<PlannedBlock> = Vec::new();
    let mut k: usize = 0;
    assert(bs.subrange(0, 0) =~= Seq::<DatasetBlock>::empty());
    assert(answers@ =~= planned@.subrange(0, n_out as int));
    while k < n
        invariant
            n == bs.len(),
            bs == m0.datasets@,
            m0 == manifest,
            ds == descriptors@,
            sel == views(selection.datasets@),
            ow == views(owners@),
            n_out == planned@.len(),
            outs == item_tables(planned@),
            k <= n,
            rest@ == bs.subrange(k as int, n as int),
            refusal(bs.subrange(0, k as int), ds, sel, ow) is None,
            ({
                let a = asked(bs.subrange(0, k as int), ds, sel, ow);
                answers@ == planned@.subrange(if a < n_out { a as int } else { n_out as int }, n_out as int)
            }),
            item_views(items@) == plan_items(bs.subrange(0, k as int), ds, sel, ow, outs),
            views(excluded@) == plan_excluded(bs.subrange(0, k as int), ds, sel, ow),
            ({
                let pos = planned_blocks(bs.subrange(0, k as int), ds, sel, ow);
                &&& blocks@.len() == pos.len()
                &&& forall|j: int| 0 <= j < pos.len() ==> 0 <= #[trigger] pos[j] < k
                &&& forall|j: int|
                    0 <= j < pos.len() ==> {
                        &&& (#[trigger] blocks@[j]).dataset@ == bs[pos[j]].name@
                        &&& blocks@[j].owner@ == ds[first_named(ds, bs[pos[j]].name@)->0].owner@
                        &&& blocks@[j].records@ == carried_items(bs[pos[j]])
                    }
            }),
        decreases n - k,
    {
        proof {
            lemma_prefix_step(bs, k as int);
        }
        let ghost pre = bs.subrange(0, k as int);
        let ghost next = bs.subrange(0, k + 1);
        let ghost a = asked(pre, ds, sel, ow);
        let b = rest.remove(0);
        assert(b == bs[k as int]);
        proof {
            lemma_first_named(ds, b.name@);
        }
        let step = import_step(&b, descriptors, selection, owners);
        match step {
            Err(e) => {
                proof {
                    assert(refusal(next, ds, sel, ow) == Some(e@));
                    assert forall|j: int| k + 1 <= j <= n implies refusal(#[trigger] bs.subrange(0, j), ds, sel, ow) == Some(
                        e@,
                    ) by {
                        lemma_refusal_sticks(bs, k + 1, j, ds, sel, ow);
                    }
                    assert(bs.subrange(0, n as int) =~= bs);
                }
                return Err(e);
            },
            Ok(ImportStep::Exclude { descriptor, note }) => {
                let DatasetBlock { name, schema_version: _, policy: _, record_count: _, sha256: _, records: _ } = b;
                let line = ImportPlanItem::excluded(name.as_str(), descriptors[descriptor].label.as_str(), note.as_str());
                items.push(line);
                excluded.push(name);
                proof {
                    assert(item_views(items@) =~= item_views(items@.drop_last()).push(item_view(line)));
                    assert(views(excluded@) =~= views(excluded@.drop_last()).push(bs[k as int].name@));
                }
            },
            Ok(ImportStep::Plan { descriptor }) => {
                let mut got = if answers.len() > 0 {
                    answers.remove(0)
                } else {
                    Vec::new()
                };
                proof {
                    if a < n_out {
                        assert(got == planned@[a as int]);
                        assert(answers@ =~= planned@.subrange((a + 1) as int, n_out as int));
                    } else {
                        assert(got@.len() == 0);
                    }
                    assert(item_views(got@) == out_at(outs, a as int));
                    lemma_item_views_add(items@, got@);
                }
                items.append(&mut got);
                let DatasetBlock { name, schema_version: _, policy: _, record_count: _, sha256: _, records } = b;
                match records {
                    Some(CarriedRecords::Array { serialized: _, items: recs }) => {
                        if recs.len() > 0 {
                            blocks.push(PlannedBlock { dataset: name, owner: descriptors[descriptor].owner.clone(), records: recs });
                        }
                    },
                    _ => {},
                }
            },
        }
        k = k + 1;
    }
    assert(bs.subrange(0, n as int) =~= bs);
    if blocks.len() == 0 {
        return Err(owned("本次选择没有可导入的数据"));
    }
    Ok(ImportPlan {
        plan_id: owned(plan_id),
        space_id: owned(space_id),
        space_name: owned(space_name),
        package_id,
        source_space_id,
        source_space_name,
        declared_counts,
        blocks,
        items,
        excluded,
    })
}

/// Once a refusal is found it stays the first one.
proof fn lemma_refusal_sticks(
    bs: Seq<DatasetBlock>,
    i: int,
    j: int,
    ds: Seq<DatasetDescriptor>,
    sel: Seq<Seq<char>>,
    owners: Seq<Seq<char>>,
)
    requires
        0 <= i <= j <= bs.len(),
        refusal(bs.subrange(0, i), ds, sel, owners) is Some,
    ensures
        refusal(bs.subrange(0, j), ds, sel, owners) == refusal(bs.subrange(0, i), ds, sel, owners),
    decreases j - i,
{
    if j > i {
        lemma_refusal_sticks(bs, i, j - 1, ds, sel, owners);
        assert(bs.subrange(0, j).drop_last() =~= bs.subrange(0, j - 1));
    }
}

/// The adapter call never refuses, whatever it is handed.
pub open spec fn adapter_never_refuses<F>(f: F) -> bool where
    F: Fn(&str, &str, &[RecordBody], &ImportContext) -> Result<Vec<ImportPlanItem>, String>,
 {
    forall|owner: &str, dataset: &str, records: &[RecordBody], context: &ImportContext, res: Result<
        Vec<ImportPlanItem>,
        String,
    >| #[trigger] call_ensures(f, (owner, dataset, records, context), res) ==> res is Ok
}

/// The adapter, asked with the owner, the name and the records of block `b`
/// and the context of the import of `m`, may answer the lines `out`.
pub open spec fn answered<F>(f: F, b: DatasetBlock, owner: Seq<char>, m: PackageManifest, out: Seq<ItemView>) -> bool where
    F: Fn(&str, &str, &[RecordBody], &ImportContext) -> Result<Vec<ImportPlanItem>, String>,
 {
    exists|o: &str, d: &str, rs: &[RecordBody], c: &ImportContext, v: Vec<ImportPlanItem>|
        #[trigger] call_ensures(f, (o, d, rs, c), Ok::<Vec<ImportPlanItem>, String>(v)) && o@ == owner && d@ == b.name@
            && rs@ == carried_items(b) && context_of(*c, m) && item_views(v@) == out
}

/// The adapter, asked with the owner, the name and the records of block `b`
/// and the context of the import of `m`, may refuse with `e`.
pub open spec fn refused<F>(f: F, b: DatasetBlock, owner: Seq<char>, m: PackageManifest, e: String) -> bool where
    F: Fn(&str, &str, &[RecordBody], &ImportContext) -> Result<Vec<ImportPlanItem>, String>,
 {
    exists|o: &str, d: &str, rs: &[RecordBody], c: &ImportContext|
        #[trigger] call_ensures(f, (o, d, rs, c), Err::<Vec<ImportPlanItem>, String>(e)) && o@ == owner && d@
            == b.name@ && rs@ == carried_items(b) && context_of(*c, m)
}

/// `outs` are answers the adapters may give, one per block of `bs` handed
/// to its adapter, in block order.
pub open spec fn answers_fit<F>(
    f: F,
    bs: Seq<DatasetBlock>,
    ds: Seq<DatasetDescriptor>,
    sel: Seq<Seq<char>>,
    owners: Seq<Seq<char>>,
    m: PackageManifest,
    outs: Seq<Seq<ItemView>>,
) -> bool where
    F: Fn(&str, &str, &[RecordBody], &ImportContext) -> Result<Vec<ImportPlanItem>, String>,
 
    decreases bs.len(),
{
    if bs.len() == 0 {
        outs.len() == 0
    } else {
        match block_step(bs.last(), ds, sel, owners) {
            Ok((d, None)) => outs.len() > 0 && answers_fit(f, bs.drop_last(), ds, sel, owners, m, outs.drop_last())
                && answered(f, bs.last(), ds[d].owner@, m, outs.last()),
            _ => answers_fit(f, bs.drop_last(), ds, sel, owners, m, outs),
        }
    }
}

/// The adapter of block `k` refused with `e`, and that was the first
/// refusal: no block before it is refused by the rules, and every block
/// before it that went to its adapter was answered.
pub open spec fn adapter_refused_at<F>(
    f: F,
    m: PackageManifest,
    ds: Seq<DatasetDescriptor>,
    sel: Seq<Seq<char>>,
    owners: Seq<Seq<char>>,
    k: int,
    e: String,
) -> bool where
    F: Fn(&str, &str, &[RecordBody], &ImportContext) -> Result<Vec<ImportPlanItem>, String>,
 {
    let bs = m.datasets@;
    &&& 0 <= k < bs.len()
    &&& refusal(bs.subrange(0, k), ds, sel, owners) is None
    &&& block_step(bs[k], ds, sel, owners) matches Ok((d, None)) && refused(f, bs[k], ds[d].owner@, m, e)
    &&& exists|outs: Seq<Seq<ItemView>>| #[trigger] answers_fit(f, bs.subrange(0, k), ds, sel, owners, m, outs)
}

/// Plans an import. Each block that may be imported is handed, in block
/// order, to the adapter of its owner (`plan_import(owner, dataset,
/// records, context)`, once per such block), and the plan is assembled from
/// the answers; the first refusal, of a block or of an adapter, ends the
/// planning with its message. Whatever the adapters answer, a package that
/// the rules refuse is refused; when the rules allow it and the adapter never
/// refuses, the plan is made.
pub fn build_plan<F>(
    manifest: PackageManifest,
    descriptors: &Vec<DatasetDescriptor>,
    selection: &ImportSelection,
    owners: &Vec<String>,
    space_id: &str,
    space_name: &str,
    plan_id: &str,
    plan_import: F,
) -> (r: Result<ImportPlan, String>) where
    F: Fn(&str, &str, &[RecordBody], &ImportContext) -> Result<Vec<ImportPlanItem>, String>,

    requires
        forall|owner: &str, dataset: &str, records: &[RecordBody], context: &ImportContext|
            call_requires(plan_import, (owner, dataset, records, context)),
    ensures
        r matches Ok(p) ==> exists|outs: Seq<Seq<ItemView>>|
            outs.len() == asked(manifest.datasets@, descriptors@, views(selection.datasets@), views(owners@))
                && answers_fit(
                plan_import,
                manifest.datasets@,
                descriptors@,
                views(selection.datasets@),
                views(owners@),
                manifest,
                outs,
            ) && plan_matches(
                p,
                manifest,
                descriptors@,
                views(selection.datasets@),
                views(owners@),
                outs,
                space_id@,
                space_name@,
                plan_id@,
            ),
        plan_error(manifest.datasets@, descriptors@, views(selection.datasets@), views(owners@)) is Some ==> r is Err,
        plan_error(manifest.datasets@, descriptors@, views(selection.datasets@), views(owners@)) is None
            && adapter_never_refuses(plan_import) ==> r is Ok,
        plan_error(manifest.datasets@, descriptors@, views(selection.datasets@), views(owners@)) is Some
            && adapter_never_refuses(plan_import) ==> (r matches Err(e) && Some(e@) == plan_error(
            manifest.datasets@,
            descriptors@,
            views(selection.datasets@),
            views(owners@),
        )),
        r matches Err(e) ==> plan_error(manifest.datasets@, descriptors@, views(selection.datasets@), views(owners@))
            == Some(e@) || exists|k: int|
            adapter_refused_at(
                plan_import,
                manifest,
                descriptors@,
                views(selection.datasets@),
                views(owners@),
                k,
                e,
            ),
{
    let ghost bs = manifest.datasets@;
    let ghost ds = descriptors@;
    let ghost sel = views(selection.datasets@);
    let ghost ow = views(owners@);
    let context = import_context(&manifest);
    let mut answers: Vec<Vec<ImportPlanItem>> = Vec::new();
    let n = manifest.datasets.len();
    let mut k: usize = 0;
    assert(bs.subrange(0, 0) =~= Seq::<DatasetBlock>::empty());
    while k < n
        invariant
            n == bs.len(),
            bs == manifest.datasets@,
            ds == descriptors@,
            sel == views(selection.datasets@),
            ow == views(owners@),
            k <= n,
            refusal(bs.subrange(0, k as int), ds, sel, ow) is None,
            answers@.len() == asked(bs.subrange(0, k as int), ds, sel, ow),
            answers_fit(plan_import, bs.subrange(0, k as int), ds, sel, ow, manifest, item_tables(answers@)),
            context_of(context, manifest),
            forall|owner: &str, dataset: &str, records: &[RecordBody], context: &ImportContext|
                call_requires(plan_import, (owner, dataset, records, context)),
        decreases n - k,
    {
        proof {
            lemma_prefix_step(bs, k as int);
        }
        let ghost next = bs.subrange(0, k + 1);
        let b = &manifest.datasets[k];
        proof {
            lemma_first_named(ds, b.name@);
        }
        let ghost before = item_tables(answers@);
        match import_step(b, descriptors, selection, owners) {
            Err(e) => {
                proof {
                    assert(refusal(next, ds, sel, ow) == Some(e@));
                    lemma_refusal_sticks(bs, k + 1, n as int, ds, sel, ow);
                    assert(bs.subrange(0, n as int) =~= bs);
                }
                return Err(e);
            },
            Ok(ImportStep::Exclude { descriptor: _, note: _ }) => {
                assert(answers_fit(plan_import, next, ds, sel, ow, manifest, item_tables(answers@)));
            },
            Ok(ImportStep::Plan { descriptor }) => {
                let records: &[RecordBody] = match &b.records {
                    Some(CarriedRecords::Array { serialized: _, items }) => items.as_slice(),
                    _ => &[],
                };
                let owner = descriptors[descriptor].owner.as_str();
                let dataset = b.name.as_str();
                match plan_import(owner, dataset, records, &context) {
                    Err(e) => {
                        proof {
                            assert(call_ensures(
                                plan_import,
                                (owner, dataset, records, &context),
                                Err::<Vec<ImportPlanItem>, String>(e),
                            ));
                            assert(records@ == carried_items(bs[k as int]));
                            assert(refused(plan_import, bs[k as int], ds[descriptor as int].owner@, manifest, e));
                            assert(adapter_refused_at(plan_import, manifest, ds, sel, ow, k as int, e));
                        }
                        return Err(e);
                    },
                    Ok(v) => {
                        proof {
                            assert(call_ensures(
                                plan_import,
                                (owner, dataset, records, &context),
                                Ok::<Vec<ImportPlanItem>, String>(v),
                            ));
                            assert(records@ == carried_items(bs[k as int]));
                            assert(answered(plan_import, bs[k as int], ds[descriptor as int].owner@, manifest, item_views(v@)));
                        }
                        answers.push(v);
                        proof {
                            assert(item_tables(answers@) =~= before.push(item_views(v@)));
                            assert(item_tables(answers@).drop_last() =~= before);
                            assert(answers_fit(plan_import, next, ds, sel, ow, manifest, item_tables(answers@)));
                        }
                    },
                }
            },
        }
        k = k + 1;
    }
    assert(bs.subrange(0, n as int) =~= bs);
    let ghost outs = item_tables(answers@);
    let r = assemble_plan(manifest, descriptors, selection, owners, answers, space_id, space_name, plan_id);
    proof {
        if r is Ok {
            let p = r->Ok_0;
            assert(outs.len() == asked(bs, ds, sel, ow));
            assert(plan_matches(p, manifest, ds, sel, ow, outs, space_id@, space_name@, plan_id@));
        }
    }
    r
}

/// What a pending line says: its note, or its label without one.
pub open spec fn pending_text(i: ImportPlanItem) -> Seq<char> {
    match i.note {
        Some(n) => n@,
        None => i.label@,
    }
}

/// The notes of the lines pending a reference.
pub open spec fn pending_texts(items: Seq<ImportPlanItem>) -> Set<Seq<char>> {
    Set::new(
        |x: Seq<char>|
            exists|i: int| 0 <= i < items.len() && items[i].outcome == ImportOutcome::PendingReference && #[trigger] pending_text(items[i]) == x,
    )
}

impl ImportPlan {
    /// What the user must complete after the import: the notes of the lines
    /// pending a reference, ascending, each once.
    pub fn pending_notes(&self) -> (r: Vec<String>)
        ensures
            strictly_ascending(views(r@)),
            views(r@).to_set() == pending_texts(self.items@),
    {
        let mut notes: Vec<String> = Vec::new();
        let mut i: usize = 0;
        assert(views(notes@).to_set() =~= pending_texts(self.items@.subrange(0, 0)));
        while i < self.items.len()
            invariant
                i <= self.items@.len(),
                strictly_ascending(views(notes@)),
                views(notes@).to_set() == pending_texts(self.items@.subrange(0, i as int)),
            decreases self.items@.len() - i,
        {
            let ghost pre = self.items@.subrange(0, i as int);
            let ghost next = self.items@.subrange(0, i + 1);
            assert(next =~= pre.push(self.items@[i as int]));
            let item = &self.items[i];
            if item.outcome == ImportOutcome::PendingReference {
                let text = match &item.note {
                    Some(n) => n.clone(),
                    None => item.label.clone(),
                };
                let _ = insert_unique(&mut notes, text);
                proof {
                    assert forall|x: Seq<char>| #[trigger] pending_texts(next).contains(x) == pending_texts(pre).insert(
                        pending_text(*item),
                    ).contains(x) by {
                        if pending_texts(next).contains(x) {
                            let j = choose|j: int|
                                0 <= j < next.len() && next[j].outcome == ImportOutcome::PendingReference
                                    && #[trigger] pending_text(next[j]) == x;
                            if j < i {
                                assert(pre[j] == next[j]);
                            }
                        }
                        if pending_texts(pre).contains(x) {
                            let j = choose|j: int|
                                0 <= j < pre.len() && pre[j].outcome == ImportOutcome::PendingReference
                                    && #[trigger] pending_text(pre[j]) == x;
                            assert(next[j] == pre[j]);
                        }
                        if x == pending_text(*item) {
                            assert(next[i as int] == *item);
                        }
                    }
                    assert(pending_texts(next) =~= pending_texts(pre).insert(pending_text(*item)));
                }
            } else {
                proof {
                    assert forall|x: Seq<char>| #[trigger] pending_texts(next).contains(x) == pending_texts(pre).contains(x) by {
                        if pending_texts(next).contains(x) {
                            let j = choose|j: int|
                                0 <= j < next.len() && next[j].outcome == ImportOutcome::PendingReference
                                    && #[trigger] pending_text(next[j]) == x;
                            if j < i {
                                assert(pre[j] == next[j]);
                            }
                        }
                        if pending_texts(pre).contains(x) {
                            let j = choose|j: int|
                                0 <= j < pre.len() && pre[j].outcome == ImportOutcome::PendingReference
                                    && #[trigger] pending_text(pre[j]) == x;
                            assert(next[j] == pre[j]);
                        }
                    }
                    assert(pending_texts(next) =~= pending_texts(pre));
                }
            }
            i = i + 1;
        }
        assert(self.items@.subrange(0, self.items@.len() as int) =~= self.items@);
        notes
    }
}

/// What an import writes was asked for and may be imported: every planned
/// block was selected, is known, is not device-local, has a schema no newer
/// than ours, and carries records.
pub proof fn planned_blocks_are_selected_and_importable(
    bs: Seq<DatasetBlock>,
    ds: Seq<DatasetDescriptor>,
    sel: Seq<Seq<char>>,
    owners: Seq<Seq<char>>,
)
    ensures
        forall|j: int|
            0 <= j < planned_blocks(bs, ds, sel, owners).len() ==> {
                let k = #[trigger] planned_blocks(bs, ds, sel, owners)[j];
                &&& 0 <= k < bs.len()
                &&& sel.contains(bs[k].name@)
                &&& bs[k].policy != TransportPolicy::DeviceLocal
                &&& carried_items(bs[k]).len() > 0
                &&& first_named(ds, bs[k].name@) matches Some(d) && ds[d].schema_version >= bs[k].schema_version
            },
    decreases bs.len(),
{
    if bs.len() > 0 {
        let pre = bs.drop_last();
        planned_blocks_are_selected_and_importable(pre, ds, sel, owners);
        let pos = planned_blocks(bs, ds, sel, owners);
        let prev = planned_blocks(pre, ds, sel, owners);
        assert forall|j: int| 0 <= j < pos.len() implies {
            let k = #[trigger] pos[j];
            &&& 0 <= k < bs.len()
            &&& sel.contains(bs[k].name@)
            &&& bs[k].policy != TransportPolicy::DeviceLocal
            &&& carried_items(bs[k]).len() > 0
            &&& first_named(ds, bs[k].name@) matches Some(d) && ds[d].schema_version >= bs[k].schema_version
        } by {
            if j < prev.len() {
                assert(pos[j] == prev[j]);
                assert(bs[prev[j]] == pre[prev[j]]);
            }
        }
    }
}

/// Nothing is left out silently: in a plan that is not refused, every block
/// the user did not select is reported as excluded.
pub proof fn unselected_blocks_are_reported(
    bs: Seq<DatasetBlock>,
    ds: Seq<DatasetDescriptor>,
    sel: Seq<Seq<char>>,
    owners: Seq<Seq<char>>,
)
    requires
        refusal(bs, ds, sel, owners) is None,
    ensures
        forall|k: int|
            0 <= k < bs.len() && !sel.contains((#[trigger] bs[k]).name@) ==> plan_excluded(bs, ds, sel, owners).contains(
                bs[k].name@,
            ),
    decreases bs.len(),
{
    if bs.len() > 0 {
        let pre = bs.drop_last();
        unselected_blocks_are_reported(pre, ds, sel, owners);
        assert forall|k: int| 0 <= k < bs.len() && !sel.contains((#[trigger] bs[k]).name@) implies plan_excluded(
            bs,
            ds,
            sel,
            owners,
        ).contains(bs[k].name@) by {
            let ex = plan_excluded(bs, ds, sel, owners);
            let prev = plan_excluded(pre, ds, sel, owners);
            if k < bs.len() - 1 {
                assert(pre[k] == bs[k]);
                let i = choose|i: int| 0 <= i < prev.len() && prev[i] == bs[k].name@;
                assert(ex[i] == prev[i]);
            } else {
                assert(ex[ex.len() - 1] == bs[k].name@);
            }
        }
    }
}

/// Refusal when an adapter wrote another number of records than planned.
pub open spec fn written_mismatch_message(dataset: Seq<char>, planned: nat, written: nat) -> Seq<char> {
    "数据集 "@ + dataset + " 计划写入 "@ + decimal_spec(planned) + " 条，实际写入 "@ + decimal_spec(written) + " 条"@
}

/// After an adapter wrote a planned block into staging: it must have written
/// exactly the planned records; gives the count written.
pub fn check_written(block: &PlannedBlock, written: usize) -> (r: Result<usize, String>)
    ensures
        written == block.records@.len() ==> r == Ok::<usize, String>(written),
        written != block.records@.len() ==> (r matches Err(m) && m@ == written_mismatch_message(
            block.dataset@,
            block.records@.len() as nat,
            written as nat,
        )),
{
    if written == block.records.len() {
        return Ok(written);
    }
    let planned = decimal(block.records.len() as u64);
    let actual = decimal(written as u64);
    let mut m = dataset_text(block.dataset.as_str(), " 计划写入 ");
    m.append(planned.as_str());
    m.append(" 条，实际写入 ");
    m.append(actual.as_str());
    m.append(" 条");
    Err(m)
}

} // verus!
