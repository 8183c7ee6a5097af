//! Merge and overwrite import into the current space: the verdict for every
//! record of a package (recognised through the import map, matched by id or
//! by display name, and settled by the user's conflict choices), the tables
//! that the commit hands to the adapters, the check of what they wrote and
//! the import-map rows the commit records.
//!
//! The commit itself (freezing the stores, the snapshot, the adapters'
//! writes, the events) runs outside; what it decides is here.

use vstd::prelude::*;

use crate::data_transfer::datasets::ImportMode;
use crate::data_transfer::lineage::{matching, recorded, same_source, ImportMap, LineageEntry};
use crate::data_transfer::records::{
    find_field, first_field, label, label_spec, missing_string_message, record_id, string, Field, Record,
};
use crate::data_transfer::storage_files::{insert_unique, strictly_ascending};
use crate::text::{concat2, concat3, owned, str_eq, views};

verus! {

/// The user's settlement of one conflict.
#[derive(Clone, Copy, Debug, PartialEq, Eq, Structural)]
pub enum ConflictDecision {
    /// Keep the local record.
    KeepLocal,
    /// Take the imported record.
    UseImported,
    /// Keep both (the imported one as a copy).
    KeepBoth,
}

/// One conflict choice as the user sends it.
#[derive(Debug, PartialEq, Eq)]
pub struct ConflictChoice {
    /// Dataset name.
    pub dataset: String,
    /// Record id inside the package.
    pub source_id: String,
    /// How it is settled.
    pub decision: ConflictDecision,
}

/// What the commit does with one record.
#[derive(Clone, Copy, Debug, PartialEq, Eq, Structural)]
pub enum ItemDecision {
    /// Written as a new record.
    Insert,
    /// Written, though what it refers to is still to be completed.
    PendingReference,
    /// Written over the local record.
    Replace,
    /// Written as a copy beside the local record.
    KeepBoth,
    /// Already here unchanged.
    Identical,
    /// The local record stays.
    Skip,
    /// Its earlier import was deleted here; not restored unless asked.
    RestorePrompt,
}

/// One line of a merge preview.
#[derive(Debug, PartialEq, Eq)]
pub struct MergeItem {
    /// Dataset.
    pub dataset: String,
    /// Record id inside the package.
    pub id: String,
    /// Display name.
    pub label: String,
    /// What the commit does with it.
    pub decision: ItemDecision,
    /// It collides with a local record (or with a deleted earlier import).
    pub conflict: bool,
    /// The local record it lands on; `None` when a new id is given at write time.
    pub target_id: Option<String>,
    /// Why, where there is something to say.
    pub note: Option<String>,
}

/// A merge item as (dataset, id, label, decision, conflict, target, note).
pub type MergeItemView = (Seq<char>, Seq<char>, Seq<char>, ItemDecision, bool, Option<Seq<char>>, Option<Seq<char>>);

/// The text of an optional string.
pub open spec fn opt_view(o: Option<String>) -> Option<Seq<char>> {
    match o {
        Some(s) => Some(s@),
        None => None,
    }
}

/// The view of a merge item.
pub open spec fn merge_item_view(i: MergeItem) -> MergeItemView {
    (i.dataset@, i.id@, i.label@, i.decision, i.conflict, opt_view(i.target_id), opt_view(i.note))
}

/// The views of merge items.
pub open spec fn merge_item_views(s: Seq<MergeItem>) -> Seq<MergeItemView> {
    s.map_values(|i: MergeItem| merge_item_view(i))
}

/// What a merge planning needs beyond the records: the mode, the import map
/// of the current space and the user's conflict choices.
pub struct MergeCore {
    /// Merge or overwrite.
    pub mode: ImportMode,
    /// The import map of the current space.
    pub lineage: ImportMap,
    /// Conflict choices; a later one for the same record replaces an earlier one.
    pub decisions: Vec<ConflictChoice>,
}

/// The choice for (dataset, source id): the last one given.
pub open spec fn choice_for(choices: Seq<ConflictChoice>, dataset: Seq<char>, id: Seq<char>) -> Option<ConflictDecision>
    decreases choices.len(),
{
    if choices.len() == 0 {
        None
    } else if choices.last().dataset@ == dataset && choices.last().source_id@ == id {
        Some(choices.last().decision)
    } else {
        choice_for(choices.drop_last(), dataset, id)
    }
}

/// The choice for (dataset, source id).
fn find_choice(choices: &Vec<ConflictChoice>, dataset: &str, id: &str) -> (r: Option<ConflictDecision>)
    ensures
        r == choice_for(choices@, dataset@, id@),
{
    let mut k: usize = choices.len();
    assert(choices@.subrange(0, k as int) =~= choices@);
    while k > 0
        invariant
            k <= choices@.len(),
            choice_for(choices@, dataset@, id@) == choice_for(choices@.subrange(0, k as int), dataset@, id@),
        decreases k,
    {
        let c = &choices[k - 1];
        assert(choices@.subrange(0, k - 1) =~= choices@.subrange(0, k as int).drop_last());
        if str_eq(c.dataset.as_str(), dataset) && str_eq(c.source_id.as_str(), id) {
            return Some(c.decision);
        }
        k = k - 1;
    }
    None
}

/// A field as (is a string, text).
pub open spec fn field_view(f: Field) -> (bool, Seq<char>) {
    match f {
        Field::Text(t) => (true, t@),
        Field::Other(t) => (false, t@),
    }
}

/// An optional field by its view.
pub open spec fn opt_field_view(f: Option<Field>) -> Option<(bool, Seq<char>)> {
    match f {
        Some(x) => Some(field_view(x)),
        None => None,
    }
}

/// Two records are equal once the first one's id is set to the second one's:
/// both objects with the same fields apart from `id`.
pub open spec fn same_apart_from_id(a: Record, b: Record) -> bool {
    match (a, b) {
        (Record::Object(fa), Record::Object(fb)) => forall|name: Seq<char>|
            name != "id"@ ==> #[trigger] opt_field_view(first_field(fa@, name)) == opt_field_view(first_field(fb@, name)),
        _ => false,
    }
}

/// A field that is found has an entry with its name.
proof fn lemma_found_field(fs: Seq<(String, Field)>, name: Seq<char>)
    ensures
        first_field(fs, name) is Some ==> exists|i: int| 0 <= i < fs.len() && (#[trigger] fs[i]).0@ == name,
    decreases fs.len(),
{
    if fs.len() > 0 && fs[0].0@ != name {
        lemma_found_field(fs.drop_first(), name);
        if first_field(fs, name) is Some {
            let i = choose|i: int| 0 <= i < fs.drop_first().len() && (#[trigger] fs.drop_first()[i]).0@ == name;
            assert(fs[i + 1] == fs.drop_first()[i]);
        }
    } else if fs.len() > 0 {
        assert(fs[0].0@ == name);
    }
}

fn same_field(a: Option<usize>, fa: &Vec<(String, Field)>, b: Option<usize>, fb: &Vec<(String, Field)>) -> (r: bool)
    requires
        a matches Some(i) ==> i < fa@.len(),
        b matches Some(j) ==> j < fb@.len(),
    ensures
        r == (match (a, b) {
            (Some(i), Some(j)) => field_view(fa@[i as int].1) == field_view(fb@[j as int].1),
            (None, None) => true,
            _ => false,
        }),
{
    match (a, b) {
        (Some(i), Some(j)) => match (&fa[i].1, &fb[j].1) {
            (Field::Text(x), Field::Text(y)) => str_eq(x.as_str(), y.as_str()),
            (Field::Other(x), Field::Other(y)) => str_eq(x.as_str(), y.as_str()),
            _ => false,
        },
        (None, None) => true,
        _ => false,
    }
}

/// Every field of `fa` but `id` reads the same in `fb`.
fn fields_within(fa: &Vec<(String, Field)>, fb: &Vec<(String, Field)>) -> (r: bool)
    ensures
        r == forall|i: int|
            0 <= i < fa@.len() && (#[trigger] fa@[i]).0@ != "id"@ ==> opt_field_view(first_field(fa@, fa@[i].0@))
                == opt_field_view(first_field(fb@, fa@[i].0@)),
{
    proof {
        reveal_strlit("id");
    }
    let mut i: usize = 0;
    while i < fa.len()
        invariant
            i <= fa@.len(),
            forall|k: int|
                0 <= k < i && (#[trigger] fa@[k]).0@ != "id"@ ==> opt_field_view(first_field(fa@, fa@[k].0@))
                    == opt_field_view(first_field(fb@, fa@[k].0@)),
        decreases fa@.len() - i,
    {
        let name = fa[i].0.as_str();
        if !str_eq(name, "id") {
            let x = find_field(fa, name);
            let y = find_field(fb, name);
            if !same_field(x, fa, y, fb) {
                return false;
            }
        }
        i = i + 1;
    }
    true
}

/// Whether the first record equals the second once its id is set to the second one's.
pub fn same_apart_from_id_exec(a: &Record, b: &Record) -> (r: bool)
    ensures
        r == same_apart_from_id(*a, *b),
{
    match (a, b) {
        (Record::Object(fa), Record::Object(fb)) => {
            let x = fields_within(fa, fb);
            let y = fields_within(fb, fa);
            proof {
                if x && y {
                    assert forall|name: Seq<char>| name != "id"@ implies #[trigger] opt_field_view(first_field(fa@, name))
                        == opt_field_view(first_field(fb@, name)) by {
                        lemma_found_field(fa@, name);
                        lemma_found_field(fb@, name);
                        if first_field(fa@, name) is Some {
                            let i = choose|i: int| 0 <= i < fa@.len() && (#[trigger] fa@[i]).0@ == name;
                            assert(fa@[i].0@ == name);
                        } else if first_field(fb@, name) is Some {
                            let j = choose|j: int| 0 <= j < fb@.len() && (#[trigger] fb@[j]).0@ == name;
                            assert(fb@[j].0@ == name);
                        }
                    }
                }
                if !x {
                    let i = choose|i: int|
                        !(0 <= i < fa@.len() && (#[trigger] fa@[i]).0@ != "id"@ ==> opt_field_view(first_field(fa@, fa@[i].0@))
                            == opt_field_view(first_field(fb@, fa@[i].0@)));
                    assert(!(opt_field_view(first_field(fa@, fa@[i].0@)) == opt_field_view(first_field(fb@, fa@[i].0@))));
                }
                if !y {
                    let j = choose|j: int|
                        !(0 <= j < fb@.len() && (#[trigger] fb@[j]).0@ != "id"@ ==> opt_field_view(first_field(fb@, fb@[j].0@))
                            == opt_field_view(first_field(fa@, fb@[j].0@)));
                    assert(!(opt_field_view(first_field(fa@, fb@[j].0@)) == opt_field_view(first_field(fb@, fb@[j].0@))));
                }
            }
            x && y
        },
        _ => false,
    }
}

/// `k` is the first local record with id `t`.
pub open spec fn is_first_with_id(local: Seq<Record>, t: Seq<char>, k: int) -> bool {
    0 <= k < local.len() && record_id(local[k]) == Some(t) && forall|j: int|
        0 <= j < k ==> record_id(#[trigger] local[j]) != Some(t)
}

/// The first local record with id `t`.
pub open spec fn first_with_id(local: Seq<Record>, t: Seq<char>) -> Option<int> {
    if exists|k: int| is_first_with_id(local, t, k) {
        Some(choose|k: int| is_first_with_id(local, t, k))
    } else {
        None
    }
}

/// `k` is the first local record whose display name is `l`.
pub open spec fn is_first_with_label(local: Seq<Record>, l: Seq<char>, k: int) -> bool {
    0 <= k < local.len() && label_spec(local[k]) == l && forall|j: int| 0 <= j < k ==> label_spec(#[trigger] local[j]) != l
}

/// The first local record whose display name is `l`.
pub open spec fn first_with_label(local: Seq<Record>, l: Seq<char>) -> Option<int> {
    if exists|k: int| is_first_with_label(local, l, k) {
        Some(choose|k: int| is_first_with_label(local, l, k))
    } else {
        None
    }
}

fn find_id(local: &Vec<Record>, t: &str) -> (r: Option<usize>)
    ensures
        r matches Some(i) ==> i < local@.len() && first_with_id(local@, t@) == Some(i as int),
        r is None ==> first_with_id(local@, t@) is None,
{
    let mut i: usize = 0;
    while i < local.len()
        invariant
            i <= local@.len(),
            forall|j: int| 0 <= j < i ==> record_id(#[trigger] local@[j]) != Some(t@),
        decreases local@.len() - i,
    {
        let found = match string(&local[i], "id") {
            Ok(x) => str_eq(x, t),
            Err(_) => false,
        };
        proof {
            reveal_strlit("id");
        }
        if found {
            proof {
                assert(is_first_with_id(local@, t@, i as int));
                let k = choose|k: int| is_first_with_id(local@, t@, k);
                if k < i {
                    assert(record_id(local@[k]) != Some(t@));
                }
                if k > i {
                    assert(record_id(local@[i as int]) != Some(t@));
                }
            }
            return Some(i);
        }
        i = i + 1;
    }
    proof {
        if exists|k: int| is_first_with_id(local@, t@, k) {
            let k = choose|k: int| is_first_with_id(local@, t@, k);
            assert(record_id(local@[k]) != Some(t@));
        }
    }
    None
}

fn find_label(local: &Vec<Record>, l: &str) -> (r: Option<usize>)
    ensures
        r matches Some(i) ==> i < local@.len() && first_with_label(local@, l@) == Some(i as int),
        r is None ==> first_with_label(local@, l@) is None,
{
    let mut i: usize = 0;
    while i < local.len()
        invariant
            i <= local@.len(),
            forall|j: int| 0 <= j < i ==> label_spec(#[trigger] local@[j]) != l@,
        decreases local@.len() - i,
    {
        if str_eq(label(&local[i]), l) {
            proof {
                assert(is_first_with_label(local@, l@, i as int));
                let k = choose|k: int| is_first_with_label(local@, l@, k);
                if k < i {
                    assert(label_spec(local@[k]) != l@);
                }
                if k > i {
                    assert(label_spec(local@[i as int]) != l@);
                }
            }
            return Some(i);
        }
        i = i + 1;
    }
    proof {
        if exists|k: int| is_first_with_label(local@, l@, k) {
            let k = choose|k: int| is_first_with_label(local@, l@, k);
            assert(label_spec(local@[k]) != l@);
        }
    }
    None
}

/// The last recorded target that is still a local record.
pub open spec fn last_present(ms: Seq<LineageEntry>, local: Seq<Record>) -> Option<Seq<char>>
    decreases ms.len(),
{
    if ms.len() == 0 {
        None
    } else if first_with_id(local, ms.last().target_id@) is Some {
        Some(ms.last().target_id@)
    } else {
        last_present(ms.drop_last(), local)
    }
}

/// Where the import map sends a record: its last recorded target still
/// present here, or else its first recorded target; `None` when the map
/// has no row for it.
pub open spec fn mapped_target(ms: Seq<LineageEntry>, local: Seq<Record>) -> Option<Seq<char>> {
    match last_present(ms, local) {
        Some(t) => Some(t),
        None => if ms.len() > 0 {
            Some(ms[0].target_id@)
        } else {
            None
        },
    }
}

fn find_mapped(ms: &Vec<&LineageEntry>, local: &Vec<Record>) -> (r: Option<String>)
    ensures
        opt_view(r) == mapped_target(ms@.map_values(|e: &LineageEntry| *e), local@),
{
    let ghost es = ms@.map_values(|e: &LineageEntry| *e);
    let mut k: usize = ms.len();
    assert(es.subrange(0, k as int) =~= es);
    while k > 0
        invariant
            k <= ms@.len(),
            es == ms@.map_values(|e: &LineageEntry| *e),
            last_present(es, local@) == last_present(es.subrange(0, k as int), local@),
        decreases k,
    {
        assert(es.subrange(0, k - 1) =~= es.subrange(0, k as int).drop_last());
        let t = ms[k - 1].target_id.as_str();
        if find_id(local, t).is_some() {
            return Some(owned(t));
        }
        k = k - 1;
    }
    if ms.len() > 0 {
        Some(owned(ms[0].target_id.as_str()))
    } else {
        None
    }
}

/// Report of a keep-both choice on a single-slot dataset.
pub open spec fn single_slot_message(dataset: Seq<char>) -> Seq<char> {
    dataset + " 为单槽配置，不能保留两份"@
}

/// Note of a record whose earlier import was deleted here.
pub open spec fn deleted_note() -> Seq<char> {
    "原导入记录已被删除，默认不恢复"@
}

/// The local record a package record lands on: the one with the mapped id
/// (or its own id when unmapped), or else, for an unmapped record of a
/// dataset that is not a single slot, the first with the same display name.
pub open spec fn hit_of(r: Record, id: Seq<char>, local: Seq<Record>, mapped: Option<Seq<char>>, singleton: bool) -> Option<int> {
    let key = match mapped {
        Some(t) => t,
        None => id,
    };
    match first_with_id(local, key) {
        Some(k) => Some(k),
        None => if mapped is None && !singleton {
            first_with_label(local, label_spec(r))
        } else {
            None
        },
    }
}

/// The merge context behind a reference.
pub open spec fn core_of(m: Option<&MergeCore>) -> Option<MergeCore> {
    match m {
        Some(c) => Some(*c),
        None => None,
    }
}

/// The verdict for one package record.
pub open spec fn plan_one(
    dataset: Seq<char>,
    r: Record,
    local: Seq<Record>,
    source_space: Seq<char>,
    merge: Option<MergeCore>,
    singleton: bool,
) -> Result<MergeItemView, Seq<char>> {
    match record_id(r) {
        None => Err(missing_string_message("id"@)),
        Some(id) => {
            let l = label_spec(r);
            let added = (dataset, id, l, ItemDecision::Insert, false, Some(id), None::<Seq<char>>);
            match merge {
                None => Ok(added),
                Some(core) => if core.mode is Overwrite {
                    Ok(added)
                } else {
                    let mapped = mapped_target(matching(core.lineage.entries@, source_space, dataset, id), local);
                    let choice = choice_for(core.decisions@, dataset, id);
                    if singleton && choice == Some(ConflictDecision::KeepBoth) {
                        Err(single_slot_message(dataset))
                    } else {
                        match hit_of(r, id, local, mapped, singleton) {
                            Some(k) => match record_id(local[k]) {
                                None => Err(missing_string_message("id"@)),
                                Some(target) => if same_apart_from_id(r, local[k]) && (mapped is Some || target == id) {
                                    Ok((dataset, id, l, ItemDecision::Identical, false, Some(target), None))
                                } else {
                                    match choice {
                                        Some(ConflictDecision::UseImported) => Ok(
                                            (dataset, id, l, ItemDecision::Replace, true, Some(target), None),
                                        ),
                                        Some(ConflictDecision::KeepBoth) => Ok(
                                            (dataset, id, l, ItemDecision::KeepBoth, true, None, None),
                                        ),
                                        _ => Ok((dataset, id, l, ItemDecision::Skip, true, Some(target), None)),
                                    }
                                },
                            },
                            None => if mapped is Some {
                                let d = match choice {
                                    Some(ConflictDecision::UseImported) => ItemDecision::Insert,
                                    Some(ConflictDecision::KeepBoth) => ItemDecision::KeepBoth,
                                    _ => ItemDecision::RestorePrompt,
                                };
                                Ok((dataset, id, l, d, true, Some(id), Some(deleted_note())))
                            } else {
                                Ok(added)
                            },
                        }
                    }
                },
            }
        },
    }
}

fn item(
    dataset: &str,
    id: &str,
    label: &str,
    decision: ItemDecision,
    conflict: bool,
    target_id: Option<String>,
    note: Option<String>,
) -> (r: MergeItem)
    ensures
        merge_item_view(r) == (dataset@, id@, label@, decision, conflict, opt_view(target_id), opt_view(note)),
{
    MergeItem { dataset: owned(dataset), id: owned(id), label: owned(label), decision, conflict, target_id, note }
}

/// The verdict for one package record of `dataset` against the local
/// records: without a merge context (or when overwriting) it is written as
/// is; otherwise it is recognised through the import map, matched by id or
/// display name, and settled by the user's choice.
pub fn plan_record(
    dataset: &str,
    record: &Record,
    local: &Vec<Record>,
    source_space: &str,
    merge: Option<&MergeCore>,
    singleton: bool,
) -> (r: Result<MergeItem, String>)
    ensures
        match r {
            Ok(i) => plan_one(dataset@, *record, local@, source_space@, core_of(merge), singleton) == Ok::<
                MergeItemView,
                Seq<char>,
            >(merge_item_view(i)),
            Err(e) => plan_one(dataset@, *record, local@, source_space@, core_of(merge), singleton) == Err::<
                MergeItemView,
                Seq<char>,
            >(e@),
        },
{
    proof {
        reveal_strlit("id");
    }
    let id = match string(record, "id") {
        Ok(x) => x,
        Err(e) => return Err(e),
    };
    let l = label(record);
    let core = match merge {
        None => return Ok(item(dataset, id, l, ItemDecision::Insert, false, Some(owned(id)), None)),
        Some(c) => c,
    };
    if let ImportMode::Overwrite = core.mode {
        return Ok(item(dataset, id, l, ItemDecision::Insert, false, Some(owned(id)), None));
    }
    let mappings = core.lineage.lookup(source_space, dataset, id);
    let mapped = find_mapped(&mappings, local);
    let key: &str = match &mapped {
        Some(t) => t.as_str(),
        None => id,
    };
    let hit = match find_id(local, key) {
        Some(k) => Some(k),
        None => if mapped.is_none() && !singleton {
            find_label(local, l)
        } else {
            None
        },
    };
    let choice = find_choice(&core.decisions, dataset, id);
    let keep_both = match choice {
        Some(ConflictDecision::KeepBoth) => true,
        _ => false,
    };
    if singleton && keep_both {
        let m = concat2(dataset, " 为单槽配置，不能保留两份");
        proof {
            reveal_strlit(" 为单槽配置，不能保留两份");
        }
        return Err(m);
    }
    match hit {
        Some(k) => {
            let target = match string(&local[k], "id") {
                Ok(x) => x,
                Err(e) => return Err(e),
            };
            if same_apart_from_id_exec(record, &local[k]) && (mapped.is_some() || str_eq(target, id)) {
                return Ok(item(dataset, id, l, ItemDecision::Identical, false, Some(owned(target)), None));
            }
            match choice {
                Some(ConflictDecision::UseImported) => Ok(
                    item(dataset, id, l, ItemDecision::Replace, true, Some(owned(target)), None),
                ),
                Some(ConflictDecision::KeepBoth) => Ok(item(dataset, id, l, ItemDecision::KeepBoth, true, None, None)),
                _ => Ok(item(dataset, id, l, ItemDecision::Skip, true, Some(owned(target)), None)),
            }
        },
        None => {
            if mapped.is_some() {
                let d = match choice {
                    Some(ConflictDecision::UseImported) => ItemDecision::Insert,
                    Some(ConflictDecision::KeepBoth) => ItemDecision::KeepBoth,
                    _ => ItemDecision::RestorePrompt,
                };
                let note = owned("原导入记录已被删除，默认不恢复");
                proof {
                    reveal_strlit("原导入记录已被删除，默认不恢复");
                }
                Ok(item(dataset, id, l, d, true, Some(owned(id)), Some(note)))
            } else {
                Ok(item(dataset, id, l, ItemDecision::Insert, false, Some(owned(id)), None))
            }
        },
    }
}

/// The verdicts for every record of one dataset block, in package order:
/// the first record that cannot be planned stops the planning with its
/// report; otherwise there is one item per record.
pub fn plan_merge_items(
    dataset: &str,
    records: &Vec<Record>,
    local: &Vec<Record>,
    source_space: &str,
    merge: Option<&MergeCore>,
    singleton: bool,
) -> (r: Result<Vec<MergeItem>, String>)
    ensures
        match r {
            Ok(v) => v@.len() == records@.len() && forall|i: int|
                0 <= i < records@.len() ==> #[trigger] plan_one(
                    dataset@,
                    records@[i],
                    local@,
                    source_space@,
                    core_of(merge),
                    singleton,
                ) == Ok::<MergeItemView, Seq<char>>(merge_item_view(v@[i])),
            Err(e) => exists|k: int|
                0 <= k < records@.len() && #[trigger] plan_one(
                    dataset@,
                    records@[k],
                    local@,
                    source_space@,
                    core_of(merge),
                    singleton,
                ) == Err::<MergeItemView, Seq<char>>(e@) && forall|j: int|
                    0 <= j < k ==> (#[trigger] plan_one(
                        dataset@,
                        records@[j],
                        local@,
                        source_space@,
                        core_of(merge),
                        singleton,
                    )) is Ok,
        },
{
    let mut out: Vec<MergeItem> = Vec::new();
    let mut i: usize = 0;
    while i < records.len()
        invariant
            i <= records@.len(),
            out@.len() == i,
            forall|j: int|
                0 <= j < i ==> #[trigger] plan_one(
                    dataset@,
                    records@[j],
                    local@,
                    source_space@,
                    core_of(merge),
                    singleton,
                ) == Ok::<MergeItemView, Seq<char>>(merge_item_view(out@[j])),
        decreases records@.len() - i,
    {
        match plan_record(dataset, &records[i], local, source_space, merge, singleton) {
            Ok(x) => out.push(x),
            Err(e) => {
                proof {
                    assert forall|j: int| 0 <= j < i implies (#[trigger] plan_one(
                        dataset@,
                        records@[j],
                        local@,
                        source_space@,
                        core_of(merge),
                        singleton,
                    )) is Ok by {}
                }
                return Err(e);
            },
        }
        i = i + 1;
    }
    Ok(out)
}

/// A merge or overwrite plan as the commit reads it.
pub struct MergePlan {
    /// Merge, overwrite (or new space, which does not commit here).
    pub mode: ImportMode,
    /// Storage revision the user previewed.
    pub expected_revision: Option<String>,
    /// Source space id from the package.
    pub source_space_id: String,
    /// Package id.
    pub package_id: String,
    /// The verdict of every record.
    pub items: Vec<MergeItem>,
    /// The package's blocks to import, in package order.
    pub blocks: Vec<MergeBlock>,
}

/// A block of a merge plan.
pub struct MergeBlock {
    /// Dataset name.
    pub dataset: String,
    /// Owner whose adapter writes it.
    pub owner: String,
    /// How many records the package carries of it.
    pub record_count: usize,
}

/// What the commit hands to the adapters.
pub struct MergeSteps {
    /// (dataset, source id, decision) of every item in plan order; a later
    /// entry for the same record replaces an earlier one.
    pub decisions: Vec<(String, String, ItemDecision)>,
    /// (dataset, source id, target id) of every item that has a target, in plan order.
    pub id_map: Vec<(String, String, String)>,
}

/// Triples of strings by their text.
pub open spec fn triple_views(s: Seq<(String, String, String)>) -> Seq<(Seq<char>, Seq<char>, Seq<char>)> {
    s.map_values(|t: (String, String, String)| (t.0@, t.1@, t.2@))
}

/// Decision entries by their text.
pub open spec fn decision_views(s: Seq<(String, String, ItemDecision)>) -> Seq<(Seq<char>, Seq<char>, ItemDecision)> {
    s.map_values(|t: (String, String, ItemDecision)| (t.0@, t.1@, t.2))
}

/// The decision table of a plan: every item's (dataset, id, decision).
pub open spec fn decision_table(items: Seq<MergeItem>) -> Seq<(Seq<char>, Seq<char>, ItemDecision)> {
    items.map_values(|i: MergeItem| (i.dataset@, i.id@, i.decision))
}

/// The id map of a plan: (dataset, id, target) of the items with a target, in order.
pub open spec fn id_map_of(items: Seq<MergeItem>) -> Seq<(Seq<char>, Seq<char>, Seq<char>)>
    decreases items.len(),
{
    if items.len() == 0 {
        Seq::empty()
    } else {
        let prev = id_map_of(items.drop_last());
        match items.last().target_id {
            Some(t) => prev.push((items.last().dataset@, items.last().id@, t@)),
            None => prev,
        }
    }
}

/// Report of a new-space plan handed to the merge commit.
pub open spec fn new_space_message() -> Seq<char> {
    "隔离导入请走暂存物化路径（materialize），不走合并提交"@
}

/// Report of a plan whose previewed revision no longer matches the stores.
pub open spec fn stale_plan_message() -> Seq<char> {
    "预览之后本地数据有变化，请重新预览后再提交"@
}

/// The expected revision is exactly the current one.
pub open spec fn revision_matches(expected: Option<String>, current: Seq<char>) -> bool {
    expected matches Some(e) && e@ == current
}

/// What the commit hands to the adapters, after refusing a new-space plan
/// and a plan previewed against another revision of the stores.
pub fn merge_commit_steps(plan: &MergePlan, current_revision: &str) -> (r: Result<MergeSteps, String>)
    ensures
        plan.mode is NewSpace ==> (r matches Err(m) && m@ == new_space_message()),
        !(plan.mode is NewSpace) && !revision_matches(plan.expected_revision, current_revision@) ==> (r matches Err(m)
            && m@ == stale_plan_message()),
        !(plan.mode is NewSpace) && revision_matches(plan.expected_revision, current_revision@) ==> (r matches Ok(steps)
            && decision_views(steps.decisions@) == decision_table(plan.items@) && triple_views(steps.id_map@)
            == id_map_of(plan.items@)),
{
    if let ImportMode::NewSpace = plan.mode {
        let m = owned("隔离导入请走暂存物化路径（materialize），不走合并提交");
        return Err(m);
    }
    let fresh = match &plan.expected_revision {
        Some(e) => str_eq(e.as_str(), current_revision),
        None => false,
    };
    if !fresh {
        return Err(owned("预览之后本地数据有变化，请重新预览后再提交"));
    }
    let mut decisions: Vec<(String, String, ItemDecision)> = Vec::new();
    let mut id_map: Vec<(String, String, String)> = Vec::new();
    let mut i: usize = 0;
    while i < plan.items.len()
        invariant
            i <= plan.items@.len(),
            decision_views(decisions@) == decision_table(plan.items@.subrange(0, i as int)),
            triple_views(id_map@) == id_map_of(plan.items@.subrange(0, i as int)),
        decreases plan.items@.len() - i,
    {
        let it = &plan.items[i];
        let ghost before = id_map@;
        let ghost before_d = decisions@;
        assert(plan.items@.subrange(0, i as int) =~= plan.items@.subrange(0, i + 1).drop_last());
        assert(plan.items@.subrange(0, i + 1).last() == plan.items@[i as int]);
        decisions.push((owned(it.dataset.as_str()), owned(it.id.as_str()), it.decision));
        if let Some(t) = &it.target_id {
            id_map.push((owned(it.dataset.as_str()), owned(it.id.as_str()), owned(t.as_str())));
            assert(triple_views(id_map@) =~= triple_views(before).push((it.dataset@, it.id@, t@)));
        } else {
            assert(id_map@ == before);
        }
        assert(decision_views(decisions@) =~= decision_views(before_d).push((it.dataset@, it.id@, it.decision)));
        assert(decision_table(plan.items@.subrange(0, i + 1)) =~= decision_table(plan.items@.subrange(0, i as int)).push(
            (it.dataset@, it.id@, it.decision),
        ));
        assert(triple_views(id_map@) =~= id_map_of(plan.items@.subrange(0, i + 1)));
        i = i + 1;
    }
    assert(plan.items@.subrange(0, i as int) =~= plan.items@);
    Ok(MergeSteps { decisions, id_map })
}

/// The decision writes the record.
pub open spec fn writes(d: ItemDecision) -> bool {
    d is Insert || d is PendingReference || d is Replace || d is KeepBoth
}

/// Whether the decision writes the record.
pub fn is_write(d: ItemDecision) -> (r: bool)
    ensures
        r == writes(d),
{
    match d {
        ItemDecision::Insert | ItemDecision::PendingReference | ItemDecision::Replace | ItemDecision::KeepBoth => true,
        _ => false,
    }
}

/// The decision for (dataset, id) in a decision table: the last entry for it.
pub open spec fn decision_of(t: Seq<(Seq<char>, Seq<char>, ItemDecision)>, dataset: Seq<char>, id: Seq<char>) -> Option<ItemDecision>
    decreases t.len(),
{
    if t.len() == 0 {
        None
    } else if t.last().0 == dataset && t.last().1 == id {
        Some(t.last().2)
    } else {
        decision_of(t.drop_last(), dataset, id)
    }
}

/// Whether an adapter may write record `id` of `dataset`: everything when
/// overwriting, otherwise only what the plan decided to write.
pub fn writable(mode: ImportMode, steps: &MergeSteps, dataset: &str, id: &str) -> (r: bool)
    ensures
        r == (mode is Overwrite || (decision_of(decision_views(steps.decisions@), dataset@, id@) matches Some(d) && writes(d))),
{
    if let ImportMode::Overwrite = mode {
        return true;
    }
    let ghost t = decision_views(steps.decisions@);
    let mut k: usize = steps.decisions.len();
    assert(t.subrange(0, k as int) =~= t);
    while k > 0
        invariant
            k <= steps.decisions@.len(),
            !(mode is Overwrite),
            t == decision_views(steps.decisions@),
            decision_of(t, dataset@, id@) == decision_of(t.subrange(0, k as int), dataset@, id@),
        decreases k,
    {
        assert(t.subrange(0, k - 1) =~= t.subrange(0, k as int).drop_last());
        let e = &steps.decisions[k - 1];
        assert(t.subrange(0, k as int).last() == (e.0@, e.1@, e.2));
        let same = str_eq(e.0.as_str(), dataset) && str_eq(e.1.as_str(), id);
        if same {
            assert(decision_of(t.subrange(0, k as int), dataset@, id@) == Some(e.2));
            return is_write(e.2);
        }
        k = k - 1;
    }
    false
}

/// How many items of `dataset` the plan writes.
pub open spec fn write_count(items: Seq<MergeItem>, dataset: Seq<char>) -> nat
    decreases items.len(),
{
    if items.len() == 0 {
        0
    } else {
        write_count(items.drop_last(), dataset) + if items.last().dataset@ == dataset && writes(items.last().decision) {
            1nat
        } else {
            0nat
        }
    }
}

/// How many records the adapter must report for a block of `block_len`
/// records: all of them when overwriting, else the items the plan writes.
pub open spec fn expected_writes(plan: MergePlan, dataset: Seq<char>, block_len: nat) -> nat {
    if plan.mode is Overwrite {
        block_len
    } else {
        write_count(plan.items@, dataset)
    }
}

/// The count an adapter must report for one block.
pub fn expected_count(plan: &MergePlan, dataset: &str, block_len: usize) -> (r: usize)
    ensures
        r == expected_writes(*plan, dataset@, block_len as nat),
{
    if let ImportMode::Overwrite = plan.mode {
        return block_len;
    }
    let mut n: usize = 0;
    let mut i: usize = 0;
    while i < plan.items.len()
        invariant
            i <= plan.items@.len(),
            n == write_count(plan.items@.subrange(0, i as int), dataset@),
            n <= i,
        decreases plan.items@.len() - i,
    {
        assert(plan.items@.subrange(0, i as int) =~= plan.items@.subrange(0, i + 1).drop_last());
        let it = &plan.items[i];
        if str_eq(it.dataset.as_str(), dataset) && is_write(it.decision) {
            n = n + 1;
        }
        i = i + 1;
    }
    assert(plan.items@.subrange(0, i as int) =~= plan.items@);
    n
}

/// A block goes to its adapter when the plan writes one of its records, or
/// always when overwriting (clearing a dataset is a write too).
pub open spec fn block_included(plan: MergePlan, dataset: Seq<char>) -> bool {
    plan.mode is Overwrite || write_count(plan.items@, dataset) > 0
}

/// Whether the block of `dataset` goes to its adapter.
pub fn includes_block(plan: &MergePlan, dataset: &str) -> (r: bool)
    ensures
        r == block_included(*plan, dataset@),
{
    if let ImportMode::Overwrite = plan.mode {
        return true;
    }
    let n = expected_count(plan, dataset, 0);
    n > 0
}

/// Report of an adapter whose count for a dataset differs from the plan.
pub open spec fn count_mismatch_message(dataset: Seq<char>) -> Seq<char> {
    "数据集 "@ + dataset + " 的实际写入条数与计划不一致"@
}

/// Report of an adapter that wrote a dataset it was not given.
pub open spec fn unplanned_dataset_message() -> Seq<char> {
    "适配器返回了计划以外的数据集"@
}

/// The count an adapter reported for `dataset` (its keys are distinct, as in a map).
pub open spec fn reported(written: Seq<(String, usize)>, dataset: Seq<char>) -> Option<usize>
    decreases written.len(),
{
    if written.len() == 0 {
        None
    } else if written.last().0@ == dataset {
        Some(written.last().1)
    } else {
        reported(written.drop_last(), dataset)
    }
}

/// The first planned block whose reported count is not the expected one.
pub open spec fn first_mismatch(expected: Seq<(String, usize)>, written: Seq<(String, usize)>) -> Option<int>
    decreases expected.len(),
{
    if expected.len() == 0 {
        None
    } else {
        match first_mismatch(expected.drop_last(), written) {
            Some(k) => Some(k),
            None => if reported(written, expected.last().0@) != Some(expected.last().1) {
                Some(expected.len() - 1)
            } else {
                None
            },
        }
    }
}

/// Some dataset of `expected` is named `name`.
pub open spec fn planned(expected: Seq<(String, usize)>, name: Seq<char>) -> bool {
    exists|k: int| 0 <= k < expected.len() && (#[trigger] expected[k]).0@ == name
}

/// The adapter reported a dataset it was not given.
pub open spec fn has_unplanned(expected: Seq<(String, usize)>, written: Seq<(String, usize)>) -> bool {
    exists|j: int| 0 <= j < written.len() && !planned(expected, (#[trigger] written[j]).0@)
}

fn reported_count(written: &Vec<(String, usize)>, dataset: &str) -> (r: Option<usize>)
    ensures
        r == reported(written@, dataset@),
{
    let mut k: usize = written.len();
    assert(written@.subrange(0, k as int) =~= written@);
    while k > 0
        invariant
            k <= written@.len(),
            reported(written@, dataset@) == reported(written@.subrange(0, k as int), dataset@),
        decreases k,
    {
        assert(written@.subrange(0, k - 1) =~= written@.subrange(0, k as int).drop_last());
        if str_eq(written[k - 1].0.as_str(), dataset) {
            return Some(written[k - 1].1);
        }
        k = k - 1;
    }
    None
}

fn is_planned(expected: &Vec<(String, usize)>, name: &str) -> (r: bool)
    ensures
        r == planned(expected@, name@),
{
    let mut k: usize = 0;
    while k < expected.len()
        invariant
            k <= expected@.len(),
            forall|j: int| 0 <= j < k ==> (#[trigger] expected@[j]).0@ != name@,
        decreases expected@.len() - k,
    {
        if str_eq(expected[k].0.as_str(), name) {
            return true;
        }
        k = k + 1;
    }
    false
}

/// The check of what one adapter wrote: every planned block (dataset and
/// expected count, in plan order) must be reported with exactly that count,
/// and nothing else may be reported.
pub fn check_written(expected: &Vec<(String, usize)>, written: &Vec<(String, usize)>) -> (r: Result<(), String>)
    ensures
        first_mismatch(expected@, written@) matches Some(k) ==> (r matches Err(m) && m@ == count_mismatch_message(
            expected@[k].0@,
        )),
        first_mismatch(expected@, written@) is None && has_unplanned(expected@, written@) ==> (r matches Err(m) && m@
            == unplanned_dataset_message()),
        first_mismatch(expected@, written@) is None && !has_unplanned(expected@, written@) ==> r is Ok,
{
    let mut i: usize = 0;
    while i < expected.len()
        invariant
            i <= expected@.len(),
            first_mismatch(expected@.subrange(0, i as int), written@) is None,
        decreases expected@.len() - i,
    {
        assert(expected@.subrange(0, i as int) =~= expected@.subrange(0, i + 1).drop_last());
        let n = reported_count(written, expected[i].0.as_str());
        let same = match n {
            Some(c) => c == expected[i].1,
            None => false,
        };
        if !same {
            proof {
                lemma_mismatch_prefix(expected@, written@, i as int);
            }
            let m = concat3("数据集 ", expected[i].0.as_str(), " 的实际写入条数与计划不一致");
            return Err(m);
        }
        i = i + 1;
    }
    assert(expected@.subrange(0, i as int) =~= expected@);
    let mut j: usize = 0;
    while j < written.len()
        invariant
            j <= written@.len(),
            first_mismatch(expected@, written@) is None,
            forall|k: int| 0 <= k < j ==> planned(expected@, (#[trigger] written@[k]).0@),
        decreases written@.len() - j,
    {
        if !is_planned(expected, written[j].0.as_str()) {
            return Err(owned("适配器返回了计划以外的数据集"));
        }
        j = j + 1;
    }
    Ok(())
}

/// A mismatch found first at `i` is the first mismatch of the whole list.
proof fn lemma_mismatch_prefix(expected: Seq<(String, usize)>, written: Seq<(String, usize)>, i: int)
    requires
        0 <= i < expected.len(),
        first_mismatch(expected.subrange(0, i), written) is None,
        reported(written, expected[i].0@) != Some(expected[i].1),
    ensures
        first_mismatch(expected, written) == Some(i),
    decreases expected.len() - i,
{
    assert(expected.subrange(0, i + 1).drop_last() =~= expected.subrange(0, i));
    assert(first_mismatch(expected.subrange(0, i + 1), written) == Some(i));
    lemma_mismatch_extends(expected, written, i + 1);
}

/// A first mismatch inside a prefix stays the first mismatch of the longer list.
proof fn lemma_mismatch_extends(expected: Seq<(String, usize)>, written: Seq<(String, usize)>, n: int)
    requires
        0 <= n <= expected.len(),
        first_mismatch(expected.subrange(0, n), written) is Some,
    ensures
        first_mismatch(expected, written) == first_mismatch(expected.subrange(0, n), written),
    decreases expected.len() - n,
{
    if n < expected.len() {
        assert(expected.subrange(0, n + 1).drop_last() =~= expected.subrange(0, n));
        lemma_mismatch_extends(expected, written, n + 1);
    } else {
        assert(expected.subrange(0, n) =~= expected);
    }
}

/// The decision leaves a row in the import map (written, or found identical).
pub open spec fn leaves_row(d: ItemDecision) -> bool {
    writes(d) || d is Identical
}

/// The import-map rows a commit records: (dataset, id, target) of every
/// item that has a target and is written or found identical, in plan order.
pub open spec fn lineage_rows(items: Seq<MergeItem>) -> Seq<(Seq<char>, Seq<char>, Seq<char>)>
    decreases items.len(),
{
    if items.len() == 0 {
        Seq::empty()
    } else {
        let prev = lineage_rows(items.drop_last());
        match items.last().target_id {
            Some(t) => if leaves_row(items.last().decision) {
                prev.push((items.last().dataset@, items.last().id@, t@))
            } else {
                prev
            },
            None => prev,
        }
    }
}

/// The import-map rows the commit of `plan` records.
pub fn lineage_updates(plan: &MergePlan) -> (r: Vec<(String, String, String)>)
    ensures
        triple_views(r@) == lineage_rows(plan.items@),
{
    let mut out: Vec<(String, String, String)> = Vec::new();
    let mut i: usize = 0;
    while i < plan.items.len()
        invariant
            i <= plan.items@.len(),
            triple_views(out@) == lineage_rows(plan.items@.subrange(0, i as int)),
        decreases plan.items@.len() - i,
    {
        let it = &plan.items[i];
        let ghost before = out@;
        assert(plan.items@.subrange(0, i as int) =~= plan.items@.subrange(0, i + 1).drop_last());
        assert(plan.items@.subrange(0, i + 1).last() == plan.items@[i as int]);
        if let Some(t) = &it.target_id {
            if is_write(it.decision) || matches!(it.decision, ItemDecision::Identical) {
                out.push((owned(it.dataset.as_str()), owned(it.id.as_str()), owned(t.as_str())));
                assert(triple_views(out@) =~= triple_views(before).push((it.dataset@, it.id@, t@)));
            }
        }
        assert(triple_views(out@) =~= lineage_rows(plan.items@.subrange(0, i + 1)));
        i = i + 1;
    }
    assert(plan.items@.subrange(0, i as int) =~= plan.items@);
    out
}

/// `states` are the import maps while the rows are recorded in turn: each
/// one is the previous with the next row recorded.
pub open spec fn recorded_in_turn(
    states: Seq<Seq<LineageEntry>>,
    rows: Seq<(Seq<char>, Seq<char>, Seq<char>)>,
    source_space: Seq<char>,
    package: Seq<char>,
    seen_at: Seq<char>,
) -> bool {
    states.len() == rows.len() + 1 && forall|k: int|
        0 <= k < rows.len() ==> recorded(
            states[k],
            states[k + 1],
            source_space,
            (#[trigger] rows[k]).0,
            rows[k].1,
            rows[k].2,
            package,
            seen_at,
        )
}

/// `after` is `before` with every row of `rows` recorded in turn.
pub open spec fn recorded_all(
    before: Seq<LineageEntry>,
    after: Seq<LineageEntry>,
    rows: Seq<(Seq<char>, Seq<char>, Seq<char>)>,
    source_space: Seq<char>,
    package: Seq<char>,
    seen_at: Seq<char>,
) -> bool {
    exists|states: Seq<Seq<LineageEntry>>|
        #[trigger] recorded_in_turn(states, rows, source_space, package, seen_at) && states[0] == before && states.last()
            == after
}

/// Records every row of a commit into the import map, in order.
pub fn apply_lineage(
    map: &mut ImportMap,
    source_space: &str,
    rows: &Vec<(String, String, String)>,
    package_id: &str,
    seen_at: &str,
)
    ensures
        final(map).version == old(map).version,
        recorded_all(old(map).entries@, final(map).entries@, triple_views(rows@), source_space@, package_id@, seen_at@),
{
    let ghost all = triple_views(rows@);
    let ghost mut states: Seq<Seq<LineageEntry>> = seq![map.entries@];
    let mut i: usize = 0;
    while i < rows.len()
        invariant
            i <= rows@.len(),
            all == triple_views(rows@),
            map.version == old(map).version,
            recorded_in_turn(states, all.subrange(0, i as int), source_space@, package_id@, seen_at@),
            states[0] == old(map).entries@,
            states.last() == map.entries@,
        decreases rows@.len() - i,
    {
        let row = &rows[i];
        map.record(source_space, row.0.as_str(), row.1.as_str(), row.2.as_str(), package_id, seen_at);
        let ghost prev = states;
        proof {
            states = states.push(map.entries@);
            assert(all.subrange(0, i + 1)[i as int] == (row.0@, row.1@, row.2@));
            assert forall|k: int| 0 <= k < i + 1 implies recorded(
                states[k],
                states[k + 1],
                source_space@,
                (#[trigger] all.subrange(0, i + 1)[k]).0,
                all.subrange(0, i + 1)[k].1,
                all.subrange(0, i + 1)[k].2,
                package_id@,
                seen_at@,
            ) by {
                if k < i {
                    assert(all.subrange(0, i + 1)[k] == all.subrange(0, i as int)[k]);
                    assert(states[k] == prev[k]);
                    assert(states[k + 1] == prev[k + 1]);
                }
            }
        }
        i = i + 1;
    }
    assert(all.subrange(0, i as int) =~= all);
    assert(recorded_in_turn(states, all, source_space@, package_id@, seen_at@));
}

/// A map with no row for a source record has no entry of it.
proof fn lemma_no_row(entries: Seq<LineageEntry>, source_space: Seq<char>, dataset: Seq<char>, id: Seq<char>)
    requires
        matching(entries, source_space, dataset, id).len() == 0,
    ensures
        forall|j: int| 0 <= j < entries.len() ==> !same_source(#[trigger] entries[j], source_space, dataset, id),
    decreases entries.len(),
{
    if entries.len() > 0 {
        lemma_no_row(entries.drop_last(), source_space, dataset, id);
        assert forall|j: int| 0 <= j < entries.len() implies !same_source(#[trigger] entries[j], source_space, dataset, id) by {
            if j < entries.len() - 1 {
                assert(entries[j] == entries.drop_last()[j]);
            }
        }
    }
}

/// Importing the same package again recognises what the first import
/// brought: once the row (source space, dataset, id → target) of a record
/// was recorded into an import map that had no row for it, and the target is
/// a local record, planning the record again against that map lands it on
/// the same target (unless the user asks to keep both), and a record that is
/// unchanged is found identical.
pub proof fn reimport_lands_on_recorded_target(
    before: Seq<LineageEntry>,
    source_space: Seq<char>,
    dataset: Seq<char>,
    id: Seq<char>,
    target: Seq<char>,
    package: Seq<char>,
    seen_at: Seq<char>,
    r: Record,
    local: Seq<Record>,
    core: MergeCore,
    singleton: bool,
)
    requires
        matching(before, source_space, dataset, id).len() == 0,
        recorded(before, core.lineage.entries@, source_space, dataset, id, target, package, seen_at),
        !(core.mode is Overwrite),
        record_id(r) == Some(id),
        first_with_id(local, target) is Some,
        choice_for(core.decisions@, dataset, id) != Some(ConflictDecision::KeepBoth),
    ensures
        plan_one(dataset, r, local, source_space, Some(core), singleton) matches Ok(v) && v.5 == Some(target),
        same_apart_from_id(r, local[first_with_id(local, target)->0]) ==> (plan_one(
            dataset,
            r,
            local,
            source_space,
            Some(core),
            singleton,
        ) matches Ok(v) && v.3 == ItemDecision::Identical),
{
    let after = core.lineage.entries@;
    lemma_no_row(before, source_space, dataset, id);
    assert(after.drop_last() =~= before);
    let ms = matching(after, source_space, dataset, id);
    assert(ms =~= seq![after.last()]);
    assert(ms.drop_last() =~= Seq::<LineageEntry>::empty());
    assert(last_present(ms, local) == Some(target));
    let k = first_with_id(local, target)->0;
    assert(is_first_with_id(local, target, k));
}

/// The report of a commit whose writes failed: the snapshot taken before
/// the commit was restored, or restoring it failed too.
pub open spec fn write_failure_report(error: Seq<char>, recovery: Result<(), Seq<char>>) -> Seq<char> {
    match recovery {
        Ok(()) => "导入失败，已还原导入前数据："@ + error,
        Err(e) => "导入失败："@ + error + "；自动还原失败："@ + e + "。请使用导入前快照恢复"@,
    }
}

/// The report of a commit whose import map could not be saved.
pub open spec fn map_failure_report(error: Seq<char>, recovery: Result<(), Seq<char>>) -> Seq<char> {
    match recovery {
        Ok(()) => "保存导入映射失败，已还原数据："@ + error,
        Err(e) => "保存导入映射失败："@ + error + "；还原失败："@ + e + "，请使用快照恢复"@,
    }
}

/// A unit result by its text.
pub open spec fn unit_view(r: Result<(), String>) -> Result<(), Seq<char>> {
    match r {
        Ok(()) => Ok(()),
        Err(e) => Err(e@),
    }
}

/// What the user is told when the adapters' writes failed.
pub fn write_failure(error: &str, recovery: &Result<(), String>) -> (r: String)
    ensures
        r@ == write_failure_report(error@, unit_view(*recovery)),
{
    match recovery {
        Ok(()) => concat2("导入失败，已还原导入前数据：", error),
        Err(e) => {
            let mut out = concat3("导入失败：", error, "；自动还原失败：");
            out.append(e.as_str());
            out.append("。请使用导入前快照恢复");
            out
        },
    }
}

/// What the user is told when the import map could not be saved.
pub fn map_failure(error: &str, recovery: &Result<(), String>) -> (r: String)
    ensures
        r@ == map_failure_report(error@, unit_view(*recovery)),
{
    match recovery {
        Ok(()) => concat2("保存导入映射失败，已还原数据：", error),
        Err(e) => {
            let mut out = concat3("保存导入映射失败：", error, "；还原失败：");
            out.append(e.as_str());
            out.append("，请使用快照恢复");
            out
        },
    }
}

/// The blocks of `owner` that go to its adapter, in block order, with the
/// count the adapter must report for each.
pub open spec fn owner_blocks(plan: MergePlan, bs: Seq<MergeBlock>, owner: Seq<char>) -> Seq<(Seq<char>, nat)>
    decreases bs.len(),
{
    if bs.len() == 0 {
        Seq::empty()
    } else {
        let prev = owner_blocks(plan, bs.drop_last(), owner);
        let b = bs.last();
        if b.owner@ == owner && block_included(plan, b.dataset@) {
            prev.push((b.dataset@, expected_writes(plan, b.dataset@, b.record_count as nat)))
        } else {
            prev
        }
    }
}

/// Some block of `bs` owned by `owner` goes to its adapter.
pub open spec fn included_owner(plan: MergePlan, bs: Seq<MergeBlock>, owner: Seq<char>) -> bool {
    exists|i: int| 0 <= i < bs.len() && (#[trigger] bs[i]).owner@ == owner && block_included(plan, bs[i].dataset@)
}

/// The blocks of one owner, as handed to its adapter.
pub struct OwnerGroup {
    /// The owner.
    pub owner: String,
    /// Dataset and the count its adapter must report, in block order.
    pub blocks: Vec<(String, usize)>,
}

/// The owner of a group.
pub open spec fn group_owner(g: OwnerGroup) -> Seq<char> {
    g.owner@
}

/// The blocks of a group by their text.
pub open spec fn group_blocks(g: OwnerGroup) -> Seq<(Seq<char>, nat)> {
    g.blocks@.map_values(|p: (String, usize)| (p.0@, p.1 as nat))
}

fn blocks_of(plan: &MergePlan, owner: &str) -> (r: Vec<(String, usize)>)
    ensures
        r@.map_values(|p: (String, usize)| (p.0@, p.1 as nat)) == owner_blocks(*plan, plan.blocks@, owner@),
{
    let mut out: Vec<(String, usize)> = Vec::new();
    let mut j: usize = 0;
    while j < plan.blocks.len()
        invariant
            j <= plan.blocks@.len(),
            out@.map_values(|p: (String, usize)| (p.0@, p.1 as nat)) == owner_blocks(
                *plan,
                plan.blocks@.subrange(0, j as int),
                owner@,
            ),
        decreases plan.blocks@.len() - j,
    {
        let b = &plan.blocks[j];
        let ghost before = out@;
        assert(plan.blocks@.subrange(0, j as int) =~= plan.blocks@.subrange(0, j + 1).drop_last());
        assert(plan.blocks@.subrange(0, j + 1).last() == plan.blocks@[j as int]);
        if str_eq(b.owner.as_str(), owner) && includes_block(plan, b.dataset.as_str()) {
            let n = expected_count(plan, b.dataset.as_str(), b.record_count);
            out.push((owned(b.dataset.as_str()), n));
            assert(out@.map_values(|p: (String, usize)| (p.0@, p.1 as nat)) =~= before.map_values(
                |p: (String, usize)| (p.0@, p.1 as nat),
            ).push((b.dataset@, n as nat)));
        }
        j = j + 1;
    }
    assert(plan.blocks@.subrange(0, j as int) =~= plan.blocks@);
    out
}

/// One more block considered: its owner is added when it goes to its adapter.
proof fn lemma_owner_step(plan: MergePlan, bs: Seq<MergeBlock>, j: int, before: Seq<Seq<char>>, after: Seq<Seq<char>>)
    requires
        0 <= j < bs.len(),
        forall|o: Seq<char>| before.contains(o) <==> included_owner(plan, bs.subrange(0, j), o),
        after.to_set() == if block_included(plan, bs[j].dataset@) {
            before.to_set().insert(bs[j].owner@)
        } else {
            before.to_set()
        },
    ensures
        forall|o: Seq<char>| after.contains(o) <==> included_owner(plan, bs.subrange(0, j + 1), o),
{
    let pre = bs.subrange(0, j);
    let next = bs.subrange(0, j + 1);
    assert forall|o: Seq<char>| after.contains(o) <==> included_owner(plan, next, o) by {
        assert(after.contains(o) <==> after.to_set().contains(o));
        assert(before.contains(o) <==> before.to_set().contains(o));
        if included_owner(plan, next, o) {
            let i = choose|i: int| 0 <= i < next.len() && (#[trigger] next[i]).owner@ == o && block_included(plan, next[i].dataset@);
            if i < j {
                assert(pre[i] == next[i]);
                assert(included_owner(plan, pre, o));
            } else {
                assert(next[i] == bs[j]);
            }
        }
        if after.contains(o) {
            if before.contains(o) {
                let i = choose|i: int| 0 <= i < pre.len() && (#[trigger] pre[i]).owner@ == o && block_included(plan, pre[i].dataset@);
                assert(next[i] == pre[i]);
            } else {
                assert(next[j] == bs[j]);
            }
        }
    }
}

/// The commit's writes grouped by owner: owners ascending, each once, each
/// with the blocks it writes (those the plan writes to, or all when
/// overwriting) in block order and the count its adapter must report.
pub fn owner_groups(plan: &MergePlan) -> (r: Vec<OwnerGroup>)
    ensures
        strictly_ascending(r@.map_values(|g: OwnerGroup| group_owner(g))),
        forall|o: Seq<char>|
            r@.map_values(|g: OwnerGroup| group_owner(g)).contains(o) <==> included_owner(*plan, plan.blocks@, o),
        forall|i: int|
            0 <= i < r@.len() ==> group_blocks(#[trigger] r@[i]) == owner_blocks(*plan, plan.blocks@, r@[i].owner@),
{
    let mut owners: Vec<String> = Vec::new();
    let mut j: usize = 0;
    while j < plan.blocks.len()
        invariant
            j <= plan.blocks@.len(),
            strictly_ascending(views(owners@)),
            forall|o: Seq<char>| views(owners@).contains(o) <==> included_owner(*plan, plan.blocks@.subrange(0, j as int), o),
        decreases plan.blocks@.len() - j,
    {
        let b = &plan.blocks[j];
        let ghost old_owners = views(owners@);
        let inc = includes_block(plan, b.dataset.as_str());
        if inc {
            insert_unique(&mut owners, owned(b.owner.as_str()));
        }
        proof {
            if !inc {
                assert(views(owners@).to_set() =~= old_owners.to_set());
            }
            lemma_owner_step(*plan, plan.blocks@, j as int, old_owners, views(owners@));
        }
        j = j + 1;
    }
    assert(plan.blocks@.subrange(0, j as int) =~= plan.blocks@);
    let mut out: Vec<OwnerGroup> = Vec::new();
    let mut k: usize = 0;
    while k < owners.len()
        invariant
            k <= owners@.len(),
            out@.len() == k,
            forall|i: int| 0 <= i < k ==> (#[trigger] out@[i]).owner@ == owners@[i]@,
            forall|i: int|
                0 <= i < k ==> group_blocks(#[trigger] out@[i]) == owner_blocks(*plan, plan.blocks@, out@[i].owner@),
        decreases owners@.len() - k,
    {
        let blocks = blocks_of(plan, owners[k].as_str());
        out.push(OwnerGroup { owner: owned(owners[k].as_str()), blocks });
        k = k + 1;
    }
    assert(out@.map_values(|g: OwnerGroup| group_owner(g)) =~= views(owners@));
    out
}

/// Report of an owner without an adapter.
pub open spec fn no_adapter_message(owner: Seq<char>) -> Seq<char> {
    "没有 owner 为 "@ + owner + " 的数据适配器"@
}

/// Where a merge commit stands.
#[derive(Debug, PartialEq, Eq)]
pub enum CommitPhase {
    /// The stores are frozen and the plan checked; the snapshot comes next.
    Snapshot,
    /// The adapter of owner `owner` (by position) is writing.
    Writing { owner: usize },
    /// All owners wrote; the import map is being saved.
    SavingMap,
    /// A step failed with `error`; the snapshot is being restored.
    Restoring { after_map: bool, error: String },
    /// Finished, one way or the other.
    Done,
}

/// What the outside reports to the commit.
#[derive(Debug, PartialEq, Eq)]
pub enum CommitEvent {
    /// The commit begins.
    Started,
    /// The snapshot of the stores was taken, or could not be.
    SnapshotTaken(Result<(), String>),
    /// The running owner's adapter wrote: the count of each dataset, or its refusal.
    OwnerWritten(Result<Vec<(String, usize)>, String>),
    /// The import map was saved, or could not be.
    MapSaved(Result<(), String>),
    /// The snapshot was restored, or could not be.
    Restored(Result<(), String>),
}

/// What the outside does next.
#[derive(Debug, PartialEq, Eq)]
pub enum CommitAction {
    /// Snapshot the stores the commit changes.
    TakeSnapshot,
    /// Hand the blocks of owner `0` (by position) to its adapter.
    WriteOwner(usize),
    /// Save the import map with the commit's rows.
    SaveMap,
    /// Restore the snapshot.
    Restore,
    /// The commit succeeded: release the stores and announce the change.
    Finish,
    /// The commit failed with this report: release the stores and announce the change.
    Fail(String),
    /// The event does not belong to this phase; nothing to do.
    Ignore,
}

/// Moving on to the group at position `j`: write it when its owner has an
/// adapter (else the commit stops with that report, leaving what was
/// written); past the last group, save the import map.
pub open spec fn entered(j: int, groups: Seq<OwnerGroup>, adapters: Seq<Seq<char>>, r: (CommitPhase, CommitAction)) -> bool {
    if j < groups.len() {
        if adapters.contains(groups[j].owner@) {
            r == (CommitPhase::Writing { owner: j as usize }, CommitAction::WriteOwner(j as usize))
        } else {
            r.0 == CommitPhase::Done && (r.1 matches CommitAction::Fail(m) && m@ == no_adapter_message(groups[j].owner@))
        }
    } else {
        r == (CommitPhase::SavingMap, CommitAction::SaveMap)
    }
}

fn has_adapter(adapters: &Vec<String>, owner: &str) -> (r: bool)
    ensures
        r == views(adapters@).contains(owner@),
{
    let mut i: usize = 0;
    while i < adapters.len()
        invariant
            i <= adapters@.len(),
            forall|k: int| 0 <= k < i ==> adapters@[k]@ != owner@,
        decreases adapters@.len() - i,
    {
        if str_eq(adapters[i].as_str(), owner) {
            assert(views(adapters@)[i as int] == owner@);
            return true;
        }
        i = i + 1;
    }
    assert forall|k: int| 0 <= k < views(adapters@).len() implies views(adapters@)[k] != owner@ by {
        assert(views(adapters@)[k] == adapters@[k]@);
    }
    false
}

fn enter(j: usize, groups: &Vec<OwnerGroup>, adapters: &Vec<String>) -> (r: (CommitPhase, CommitAction))
    ensures
        entered(j as int, groups@, views(adapters@), r),
{
    if j < groups.len() {
        let owner = groups[j].owner.as_str();
        if has_adapter(adapters, owner) {
            (CommitPhase::Writing { owner: j }, CommitAction::WriteOwner(j))
        } else {
            let m = concat3("没有 owner 为 ", owner, " 的数据适配器");
            (CommitPhase::Done, CommitAction::Fail(m))
        }
    } else {
        (CommitPhase::SavingMap, CommitAction::SaveMap)
    }
}

/// One step of a merge commit: from where it stands and what was reported,
/// to where it stands next and what to do. `groups` are the owners' writes
/// in order (see `owner_groups`) and `adapters` the owners that have one.
/// The snapshot comes first (its failure ends the commit with its report);
/// the owners write in order, each checked against the plan (an owner
/// without an adapter stops the commit with its report); then the import
/// map is saved. A failed write, check or save restores the snapshot, and
/// the report says whether the restore worked.
pub fn commit_step(phase: CommitPhase, groups: &Vec<OwnerGroup>, adapters: &Vec<String>, event: CommitEvent) -> (r: (
    CommitPhase,
    CommitAction,
))
    ensures
        match (phase, event) {
            (CommitPhase::Snapshot, CommitEvent::Started) => r == (CommitPhase::Snapshot, CommitAction::TakeSnapshot),
            (CommitPhase::Snapshot, CommitEvent::SnapshotTaken(Err(e))) => r.0 == CommitPhase::Done && (r.1 matches CommitAction::Fail(m) && m@ == e@),
            (CommitPhase::Snapshot, CommitEvent::SnapshotTaken(Ok(()))) => entered(0, groups@, views(adapters@), r),
            (CommitPhase::Writing { owner }, CommitEvent::OwnerWritten(_)) if owner >= groups@.len() => r == (
                CommitPhase::Writing { owner },
                CommitAction::Ignore,
            ),
            (CommitPhase::Writing { owner }, CommitEvent::OwnerWritten(Err(e))) => r.0 matches CommitPhase::Restoring {
                after_map,
                error,
            } && !after_map && error@ == e@ && r.1 == CommitAction::Restore,
            (CommitPhase::Writing { owner }, CommitEvent::OwnerWritten(Ok(w))) => match (
                first_mismatch(groups@[owner as int].blocks@, w@),
                has_unplanned(groups@[owner as int].blocks@, w@),
            ) {
                (Some(k), _) => r.0 matches CommitPhase::Restoring { after_map, error } && !after_map && error@
                    == count_mismatch_message(groups@[owner as int].blocks@[k].0@) && r.1 == CommitAction::Restore,
                (None, true) => r.0 matches CommitPhase::Restoring { after_map, error } && !after_map && error@
                    == unplanned_dataset_message() && r.1 == CommitAction::Restore,
                (None, false) => entered(owner + 1, groups@, views(adapters@), r),
            },
            (CommitPhase::SavingMap, CommitEvent::MapSaved(Err(e))) => r.0 matches CommitPhase::Restoring { after_map, error }
                && after_map && error@ == e@ && r.1 == CommitAction::Restore,
            (CommitPhase::SavingMap, CommitEvent::MapSaved(Ok(()))) => r == (CommitPhase::Done, CommitAction::Finish),
            (CommitPhase::Restoring { after_map, error }, CommitEvent::Restored(rec)) => r.0 == CommitPhase::Done
                && (r.1 matches CommitAction::Fail(m) && m@ == if after_map {
                map_failure_report(error@, unit_view(rec))
            } else {
                write_failure_report(error@, unit_view(rec))
            }),
            (p, _) => r.0 == p && r.1 == CommitAction::Ignore,
        },
{
    match (phase, event) {
        (CommitPhase::Snapshot, CommitEvent::Started) => (CommitPhase::Snapshot, CommitAction::TakeSnapshot),
        (CommitPhase::Snapshot, CommitEvent::SnapshotTaken(Err(e))) => (CommitPhase::Done, CommitAction::Fail(e)),
        (CommitPhase::Snapshot, CommitEvent::SnapshotTaken(Ok(()))) => enter(0, groups, adapters),
        (CommitPhase::Writing { owner }, CommitEvent::OwnerWritten(res)) => {
            if owner >= groups.len() {
                return (CommitPhase::Writing { owner }, CommitAction::Ignore);
            }
            match res {
                Err(e) => (CommitPhase::Restoring { after_map: false, error: e }, CommitAction::Restore),
                Ok(w) => match check_written(&groups[owner].blocks, &w) {
                    Err(e) => (CommitPhase::Restoring { after_map: false, error: e }, CommitAction::Restore),
                    Ok(()) => enter(owner + 1, groups, adapters),
                },
            }
        },
        (CommitPhase::SavingMap, CommitEvent::MapSaved(Err(e))) => (
            CommitPhase::Restoring { after_map: true, error: e },
            CommitAction::Restore,
        ),
        (CommitPhase::SavingMap, CommitEvent::MapSaved(Ok(()))) => (CommitPhase::Done, CommitAction::Finish),
        (CommitPhase::Restoring { after_map, error }, CommitEvent::Restored(rec)) => {
            let report = if after_map {
                map_failure(error.as_str(), &rec)
            } else {
                write_failure(error.as_str(), &rec)
            };
            (CommitPhase::Done, CommitAction::Fail(report))
        },
        (p, _) => (p, CommitAction::Ignore),
    }
}

/// In a merge, a package record that the import map does not know lands on
/// the first local record with its own id whenever there is one, whatever
/// the display names say; matching by name is only for records whose id is
/// absent here. The record is then identical when it equals that local
/// record apart from the id, and otherwise a conflict that keeps that target
/// (unless the user keeps both, which writes a copy).
pub proof fn same_id_local_record_is_the_hit(
    dataset: Seq<char>,
    r: Record,
    local: Seq<Record>,
    source_space: Seq<char>,
    core: MergeCore,
    singleton: bool,
    k: int,
)
    requires
        !(core.mode is Overwrite),
        record_id(r) is Some,
        matching(core.lineage.entries@, source_space, dataset, record_id(r)->0).len() == 0,
        0 <= k < local.len(),
        record_id(local[k]) == record_id(r),
        forall|j: int| 0 <= j < k ==> record_id(#[trigger] local[j]) != record_id(r),
        !(singleton && choice_for(core.decisions@, dataset, record_id(r)->0) == Some(ConflictDecision::KeepBoth)),
    ensures
        plan_one(dataset, r, local, source_space, Some(core), singleton) matches Ok(v) && v.0 == dataset && v.1
            == record_id(r)->0 && (same_apart_from_id(r, local[k]) ==> v.3 == ItemDecision::Identical && !v.4 && v.5
            == record_id(r)) && (!same_apart_from_id(r, local[k]) ==> v.4 && (v.3 == ItemDecision::KeepBoth || v.5
            == record_id(r))),
{
    let id = record_id(r)->0;
    let ms = matching(core.lineage.entries@, source_space, dataset, id);
    assert(last_present(ms, local) is None);
    assert(mapped_target(ms, local) is None);
    assert(is_first_with_id(local, id, k));
    let c = choose|c: int| is_first_with_id(local, id, c);
    if c < k {
        assert(record_id(local[c]) != Some(id));
    }
    if c > k {
        assert(record_id(local[k]) != Some(id));
    }
    assert(first_with_id(local, id) == Some(k));
}

/// In a merge, a package record that the import map does not know and whose
/// id is absent here: it lands on the first local record with the same
/// display name (unless the dataset is a single slot), and with no such
/// record it is inserted under its own id, without a conflict.
pub proof fn absent_id_matches_by_name_or_inserts(
    dataset: Seq<char>,
    r: Record,
    local: Seq<Record>,
    source_space: Seq<char>,
    core: MergeCore,
    singleton: bool,
)
    requires
        !(core.mode is Overwrite),
        record_id(r) is Some,
        matching(core.lineage.entries@, source_space, dataset, record_id(r)->0).len() == 0,
        forall|j: int| 0 <= j < local.len() ==> record_id(#[trigger] local[j]) != record_id(r),
        !(singleton && choice_for(core.decisions@, dataset, record_id(r)->0) == Some(ConflictDecision::KeepBoth)),
    ensures
        (singleton || forall|j: int| 0 <= j < local.len() ==> label_spec(#[trigger] local[j]) != label_spec(r))
            ==> plan_one(dataset, r, local, source_space, Some(core), singleton) == Ok::<MergeItemView, Seq<char>>(
            (dataset, record_id(r)->0, label_spec(r), ItemDecision::Insert, false, record_id(r), None),
        ),
        forall|k: int|
            #![trigger local[k]]
            !singleton && 0 <= k < local.len() && label_spec(local[k]) == label_spec(r) && (forall|j: int|
                0 <= j < k ==> label_spec(#[trigger] local[j]) != label_spec(r)) && record_id(local[k]) is Some ==> (
            plan_one(dataset, r, local, source_space, Some(core), singleton) matches Ok(v) && v.4 && (v.3
                == ItemDecision::KeepBoth || v.5 == record_id(local[k]))),
{
    let id = record_id(r)->0;
    let ms = matching(core.lineage.entries@, source_space, dataset, id);
    assert(mapped_target(ms, local) is None);
    if exists|c: int| is_first_with_id(local, id, c) {
        let c = choose|c: int| is_first_with_id(local, id, c);
        assert(record_id(local[c]) != Some(id));
    }
    assert(first_with_id(local, id) is None);
    assert forall|k: int|
        #![trigger local[k]]
        !singleton && 0 <= k < local.len() && label_spec(local[k]) == label_spec(r) && (forall|j: int|
            0 <= j < k ==> label_spec(#[trigger] local[j]) != label_spec(r)) && record_id(local[k]) is Some implies (
        plan_one(dataset, r, local, source_space, Some(core), singleton) matches Ok(v) && v.4 && (v.3
            == ItemDecision::KeepBoth || v.5 == record_id(local[k]))) by {
        assert(is_first_with_label(local, label_spec(r), k));
        let c = choose|c: int| is_first_with_label(local, label_spec(r), c);
        if c < k {
            assert(label_spec(local[c]) != label_spec(r));
        }
        if k < c {
            assert(label_spec(local[k]) != label_spec(r));
        }
        assert(first_with_label(local, label_spec(r)) == Some(k));
        assert(hit_of(r, id, local, None, singleton) == Some(k));
        assert(record_id(r) != record_id(local[k]));
    }
    if !singleton && forall|j: int| 0 <= j < local.len() ==> label_spec(#[trigger] local[j]) != label_spec(r) {
        if exists|c: int| is_first_with_label(local, label_spec(r), c) {
            let c = choose|c: int| is_first_with_label(local, label_spec(r), c);
            assert(label_spec(local[c]) == label_spec(r));
        }
    }
}

} // verus!



