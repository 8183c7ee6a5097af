//! Dataset names of the preferences adapter and the import modes of the
//! front-end contract.

use vstd::prelude::*;

use crate::data_transfer::import_plan::{item_view, item_views, ImportOutcome, ImportPlanItem, ItemView};
use crate::data_transfer::types::{DatasetDescriptor, DependencyEdge, TransportPolicy};
use crate::text::{concat2, concat3, decimal, decimal_spec, owned, str_eq, trim, trim_spec, views};

verus! {

/// Dataset of favourite tools.
pub const DATASET_FAVORITES: &'static str = "core.favorites";

/// Dataset of recently used tools.
pub const DATASET_RECENT: &'static str = "core.recent_tools";

/// Schema version of the preference datasets.
pub const SCHEMA_VERSION: u32 = 1;

/// Key of the favourites in `preferences.json`.
pub const FAVORITES_KEY: &'static str = "favorites";

/// Key of the recent tools in `preferences.json`.
pub const RECENT_KEY: &'static str = "recentTools";

/// The `preferences.json` key of a dataset; any other dataset is refused
/// (no other key is carried out as a habit).
pub open spec fn key_of_spec(dataset: Seq<char>) -> Result<Seq<char>, Seq<char>> {
    if dataset == DATASET_FAVORITES@ {
        Ok(FAVORITES_KEY@)
    } else if dataset == DATASET_RECENT@ {
        Ok(RECENT_KEY@)
    } else {
        Err("偏好适配器不支持数据集 "@ + dataset)
    }
}

/// Dataset name to `preferences.json` key.
pub fn key_of(dataset: &str) -> (r: Result<&'static str, String>)
    ensures
        match key_of_spec(dataset@) {
            Ok(k) => r is Ok && r->Ok_0@ == k,
            Err(m) => r is Err && r->Err_0@ == m,
        },
{
    if str_eq(dataset, DATASET_FAVORITES) {
        Ok(FAVORITES_KEY)
    } else if str_eq(dataset, DATASET_RECENT) {
        Ok(RECENT_KEY)
    } else {
        Err(concat2("偏好适配器不支持数据集 ", dataset))
    }
}

/// What a `preferences.json` key holds, as the habit datasets read it.
#[derive(Debug, PartialEq, Eq)]
pub enum ListValue {
    /// The key is absent.
    Missing,
    /// The key holds `null`.
    Null,
    /// An array: each item's string, or `None` for an item that is not a string.
    Items(Vec<Option<String>>),
    /// Any other JSON value.
    Other,
}

/// The report of an array item that is not a string.
pub open spec fn non_string_item_message(key: Seq<char>) -> Seq<char> {
    "偏好 "@ + key + " 含非字符串项"@
}

/// The report of a value that is not an array of strings.
pub open spec fn not_a_list_message(key: Seq<char>) -> Seq<char> {
    "偏好 "@ + key + " 结构不符（应为字符串数组）"@
}

/// The tool ids a key holds: nothing when absent or `null`; a structure that
/// is not an array of strings is an error, never an empty list (an export
/// would silently carry less).
pub fn ids_of(value: &ListValue, key: &str) -> (r: Result<Vec<String>, String>)
    ensures
        match *value {
            ListValue::Missing | ListValue::Null => r matches Ok(v) && v@.len() == 0,
            ListValue::Other => r matches Err(m) && m@ == not_a_list_message(key@),
            ListValue::Items(items) => if exists|i: int| 0 <= i < items@.len() && (#[trigger] items@[i]) is None {
                r matches Err(m) && m@ == non_string_item_message(key@)
            } else {
                r matches Ok(v) && v@.len() == items@.len() && forall|i: int|
                    0 <= i < items@.len() ==> items@[i] == Some(#[trigger] v@[i])
            },
        },
{
    match value {
        ListValue::Missing | ListValue::Null => Ok(Vec::new()),
        ListValue::Other => {
            let m = concat3("偏好 ", key, " 结构不符（应为字符串数组）");
            proof {
                reveal_strlit("偏好 ");
                reveal_strlit(" 结构不符（应为字符串数组）");
            }
            Err(m)
        },
        ListValue::Items(items) => {
            let mut out: Vec<String> = Vec::new();
            let mut i: usize = 0;
            while i < items.len()
                invariant
                    *value == ListValue::Items(*items),
                    i <= items@.len(),
                    out@.len() == i,
                    forall|k: int| 0 <= k < i ==> items@[k] == Some(#[trigger] out@[k]),
                decreases items@.len() - i,
            {
                match &items[i] {
                    Some(id) => out.push(id.clone()),
                    None => {
                        let m = concat3("偏好 ", key, " 含非字符串项");
                        proof {
                            reveal_strlit("偏好 ");
                            reveal_strlit(" 含非字符串项");
                            assert(items@[i as int] is None);
                        }
                        return Err(m);
                    },
                }
                i = i + 1;
            }
            proof {
                assert forall|k: int| 0 <= k < items@.len() implies !((#[trigger] items@[k]) is None) by {
                    assert(items@[k] == Some(out@[k]));
                }
            }
            Ok(out)
        },
    }
}

/// The adapter of the habit datasets (favourite and recent tools), owned by
/// the framework (`core`).
pub struct PreferencesAdapter;

/// The report of a habit record that is not a tool id.
pub open spec fn not_tool_id_message(dataset: Seq<char>) -> Seq<char> {
    dataset + " 记录必须是工具 id（非空字符串）"@
}

/// The report of a requested id the dataset does not hold.
pub open spec fn stale_id_message(dataset: Seq<char>, id: Seq<char>) -> Seq<char> {
    dataset + " 不存在记录 "@ + id + "（列表可能已过期，请刷新后重试）"@
}

/// The report of a read-back that does not match what was written.
pub open spec fn readback_message(dataset: Seq<char>, count: nat, expected: nat) -> Seq<char> {
    dataset + " 写入后读回 "@ + decimal_spec(count) + " 条，预期 "@ + decimal_spec(expected) + " 条"@
}

/// A tool id record: a string that is not blank.
pub open spec fn tool_id_record(r: Option<String>) -> bool {
    r matches Some(s) && trim_spec(s@).len() > 0
}

/// The descriptor of one habit dataset (taken as a whole, no entries).
fn habit_descriptor(name: &str, label: &str, count: usize, default_selected: bool) -> (d: DatasetDescriptor)
    ensures
        d.name@ == name@,
        d.label@ == label@,
        d.owner@ == "core"@,
        d.policy == TransportPolicy::Portable,
        d.schema_version == SCHEMA_VERSION,
        d.selectable,
        !d.contains_secret,
        d.default_selected == default_selected,
        d.pulls@.len() == 0,
        d.note is None,
        d.record_count == count,
        d.entries@.len() == 0,
{
    DatasetDescriptor {
        name: owned(name),
        label: owned(label),
        owner: owned("core"),
        policy: TransportPolicy::Portable,
        schema_version: SCHEMA_VERSION,
        selectable: true,
        contains_secret: false,
        default_selected,
        pulls: Vec::new(),
        note: None,
        record_count: count,
        entries: Vec::new(),
    }
}

impl PreferencesAdapter {
    /// The owner of the habit datasets.
    pub fn owner(&self) -> (r: &'static str)
        ensures
            r@ == "core"@,
    {
        "core"
    }

    /// The two habit datasets, with how many tools each holds: favourites
    /// (ticked by default) and recent tools (not ticked).
    pub fn describe_datasets(&self, favorites: usize, recent: usize) -> (r: Vec<DatasetDescriptor>)
        ensures
            r@.len() == 2,
            r@[0].name@ == DATASET_FAVORITES@ && r@[0].label@ == "收藏工具"@ && r@[0].record_count == favorites
                && r@[0].default_selected,
            r@[1].name@ == DATASET_RECENT@ && r@[1].label@ == "最近使用"@ && r@[1].record_count == recent
                && !r@[1].default_selected,
            forall|k: int|
                0 <= k < 2 ==> {
                    let d = #[trigger] r@[k];
                    &&& d.owner@ == "core"@
                    &&& d.policy == TransportPolicy::Portable
                    &&& d.schema_version == SCHEMA_VERSION
                    &&& d.selectable
                    &&& !d.contains_secret
                    &&& d.pulls@.len() == 0
                    &&& d.note is None
                    &&& d.entries@.len() == 0
                },
    {
        let mut r: Vec<DatasetDescriptor> = Vec::new();
        r.push(habit_descriptor(DATASET_FAVORITES, "收藏工具", favorites, true));
        r.push(habit_descriptor(DATASET_RECENT, "最近使用", recent, false));
        r
    }

    /// The records to export from the ids a dataset holds: all of them for an
    /// empty request, else the requested ids in request order, each of which
    /// must be held (a stale list is refused).
    pub fn export_records(&self, dataset: &str, all: &Vec<String>, ids: &[String]) -> (r: Result<Vec<String>, String>)
        ensures
            match key_of_spec(dataset@) {
                Err(e) => r matches Err(m) && m@ == e,
                Ok(_) => if ids@.len() == 0 {
                    r matches Ok(v) && v@ == all@
                } else {
                    match first_stale(views(all@), views(ids@)) {
                        Some(j) => r matches Err(m) && m@ == stale_id_message(dataset@, ids@[j]@),
                        None => r matches Ok(v) && v@ == ids@,
                    }
                },
            },
    {
        match key_of(dataset) {
            Err(e) => {
                return Err(e);
            },
            Ok(_) => {},
        }
        if ids.len() == 0 {
            let mut v: Vec<String> = Vec::new();
            let mut i: usize = 0;
            while i < all.len()
                invariant
                    i <= all@.len(),
                    v@ == all@.subrange(0, i as int),
                decreases all@.len() - i,
            {
                v.push(all[i].clone());
                proof {
                    assert(all@.subrange(0, i + 1) =~= all@.subrange(0, i as int).push(all@[i as int]));
                }
                i = i + 1;
            }
            assert(all@.subrange(0, all@.len() as int) =~= all@);
            return Ok(v);
        }
        let mut out: Vec<String> = Vec::new();
        let mut j: usize = 0;
        while j < ids.len()
            invariant
                key_of_spec(dataset@) is Ok,
                j <= ids@.len(),
                out@ == ids@.subrange(0, j as int),
                forall|q: int| 0 <= q < j ==> views(all@).contains(#[trigger] views(ids@)[q]),
            decreases ids@.len() - j,
        {
            let mut k: usize = 0;
            let mut held = false;
            while k < all.len() && !held
                invariant
                    key_of_spec(dataset@) is Ok,
                    j < ids@.len(),
                    k <= all@.len(),
                    held ==> views(all@).contains(views(ids@)[j as int]),
                    !held ==> forall|p: int| 0 <= p < k ==> (#[trigger] all@[p])@ != ids@[j as int]@,
                decreases all@.len() - k,
            {
                if str_eq(all[k].as_str(), ids[j].as_str()) {
                    assert(views(all@)[k as int] == views(ids@)[j as int]);
                    held = true;
                }
                k = k + 1;
            }
            if !held {
                let mut m = concat3(dataset, " 不存在记录 ", ids[j].as_str());
                m.append("（列表可能已过期，请刷新后重试）");
                proof {
                    reveal_strlit(" 不存在记录 ");
                    reveal_strlit("（列表可能已过期，请刷新后重试）");
                    if views(all@).contains(views(ids@)[j as int]) {
                        let p = choose|p: int| 0 <= p < views(all@).len() && views(all@)[p] == views(ids@)[j as int];
                        assert(all@[p]@ == ids@[j as int]@);
                    }
                    lemma_first_stale(views(all@), views(ids@), j as int);
                }
                return Err(m);
            }
            out.push(ids[j].clone());
            proof {
                assert(ids@.subrange(0, j + 1) =~= ids@.subrange(0, j as int).push(ids@[j as int]));
            }
            j = j + 1;
        }
        proof {
            assert(ids@.subrange(0, ids@.len() as int) =~= ids@);
            lemma_first_stale(views(all@), views(ids@), ids@.len() as int);
        }
        Ok(out)
    }

    /// Checks records before import: each must be a tool id (a non-blank string).
    pub fn validate_records(&self, dataset: &str, records: &[Option<String>]) -> (r: Result<(), String>)
        ensures
            match key_of_spec(dataset@) {
                Err(e) => r matches Err(m) && m@ == e,
                Ok(_) => if forall|i: int| 0 <= i < records@.len() ==> tool_id_record(#[trigger] records@[i]) {
                    r is Ok
                } else {
                    r matches Err(m) && m@ == not_tool_id_message(dataset@)
                },
            },
    {
        match key_of(dataset) {
            Err(e) => {
                return Err(e);
            },
            Ok(_) => {},
        }
        let mut i: usize = 0;
        while i < records.len()
            invariant
                key_of_spec(dataset@) is Ok,
                i <= records@.len(),
                forall|k: int| 0 <= k < i ==> tool_id_record(#[trigger] records@[k]),
            decreases records@.len() - i,
        {
            let ok = match &records[i] {
                Some(s) => trim(s.as_str()).unicode_len() > 0,
                None => false,
            };
            if !ok {
                let m = concat2(dataset, " 记录必须是工具 id（非空字符串）");
                proof {
                    reveal_strlit(" 记录必须是工具 id（非空字符串）");
                    assert(!tool_id_record(records@[i as int]));
                }
                return Err(m);
            }
            i = i + 1;
        }
        Ok(())
    }

    /// Habits are leaves: they refer to nothing.
    pub fn enumerate_references(&self, dataset: &str) -> (r: Result<Vec<DependencyEdge>, String>)
        ensures
            match key_of_spec(dataset@) {
                Err(e) => r matches Err(m) && m@ == e,
                Ok(_) => r matches Ok(v) && v@.len() == 0,
            },
    {
        match key_of(dataset) {
            Err(e) => Err(e),
            Ok(_) => Ok(Vec::new()),
        }
    }

    /// Import verdicts of a habit dataset: the dataset brought in as a
    /// whole, one added line per tool id (records that are not strings get
    /// no line); an empty list gets one exclusion line.
    pub fn plan_import(&self, dataset: &str, records: &[Option<String>]) -> (r: Result<Vec<ImportPlanItem>, String>)
        ensures
            match key_of_spec(dataset@) {
                Err(e) => r matches Err(m) && m@ == e,
                Ok(_) => r matches Ok(v) && item_views(v@) == if records@.len() == 0 {
                    seq![(dataset@, Seq::<char>::empty(), dataset@, ImportOutcome::Excluded, Some(empty_list_note()))]
                } else {
                    added_lines(dataset@, string_records(records@))
                },
            },
    {
        match key_of(dataset) {
            Err(e) => {
                return Err(e);
            },
            Ok(_) => {},
        }
        if records.len() == 0 {
            let line = ImportPlanItem::excluded(dataset, dataset, "包内这一类是空列表");
            let mut v: Vec<ImportPlanItem> = Vec::new();
            v.push(line);
            proof {
                reveal_strlit("包内这一类是空列表");
                assert(item_views(v@) =~= seq![item_view(line)]);
            }
            return Ok(v);
        }
        let mut v: Vec<ImportPlanItem> = Vec::new();
        let mut i: usize = 0;
        while i < records.len()
            invariant
                i <= records@.len(),
                item_views(v@) == added_lines(dataset@, string_records(records@.subrange(0, i as int))),
            decreases records@.len() - i,
        {
            proof {
                assert(records@.subrange(0, i + 1).drop_last() =~= records@.subrange(0, i as int));
            }
            match &records[i] {
                Some(tool) => {
                    let line = ImportPlanItem::added(dataset, tool.as_str(), tool.as_str());
                    v.push(line);
                    proof {
                        assert(item_views(v@) =~= item_views(v@.drop_last()).push(item_view(line)));
                        assert(added_lines(dataset@, string_records(records@.subrange(0, i + 1))) =~= added_lines(
                            dataset@,
                            string_records(records@.subrange(0, i as int)),
                        ).push(item_view(line)));
                    }
                },
                None => {},
            }
            i = i + 1;
        }
        assert(records@.subrange(0, records@.len() as int) =~= records@);
        Ok(v)
    }

    /// Checks the read-back after writing a habit dataset to staging: the
    /// count read back must be the count written.
    pub fn check_readback(&self, dataset: &str, count: usize, expected: usize) -> (r: Result<usize, String>)
        ensures
            if count == expected {
                r == Ok::<usize, String>(expected)
            } else {
                r matches Err(m) && m@ == readback_message(dataset@, count as nat, expected as nat)
            },
    {
        if count == expected {
            return Ok(expected);
        }
        let c = decimal(count as u64);
        let e = decimal(expected as u64);
        let mut m = concat3(dataset, " 写入后读回 ", c.as_str());
        m.append(" 条，预期 ");
        m.append(e.as_str());
        m.append(" 条");
        proof {
            reveal_strlit(" 写入后读回 ");
            reveal_strlit(" 条，预期 ");
            reveal_strlit(" 条");
        }
        Err(m)
    }
}

/// The note of an empty habit list in a package.
pub open spec fn empty_list_note() -> Seq<char> {
    "包内这一类是空列表"@
}

/// The string records, in order.
pub open spec fn string_records(records: Seq<Option<String>>) -> Seq<Seq<char>>
    decreases records.len(),
{
    if records.len() == 0 {
        Seq::empty()
    } else {
        let prev = string_records(records.drop_last());
        match records.last() {
            Some(s) => prev.push(s@),
            None => prev,
        }
    }
}

/// One added line per tool id.
pub open spec fn added_lines(dataset: Seq<char>, tools: Seq<Seq<char>>) -> Seq<ItemView> {
    tools.map_values(|t: Seq<char>| (dataset, t, t, ImportOutcome::Added, None::<Seq<char>>))
}

/// The first requested id the list does not hold.
pub open spec fn first_stale(all: Seq<Seq<char>>, ids: Seq<Seq<char>>) -> Option<int> {
    if exists|j: int| 0 <= j < ids.len() && !all.contains(#[trigger] ids[j]) {
        Some(choose|j: int| 0 <= j < ids.len() && !all.contains(#[trigger] ids[j]) && forall|q: int| 0 <= q < j ==> all.contains(#[trigger] ids[q]))
    } else {
        None
    }
}

/// When every id before `j` is held, the first stale id is `j` if it is not held.
proof fn lemma_first_stale(all: Seq<Seq<char>>, ids: Seq<Seq<char>>, j: int)
    requires
        0 <= j <= ids.len(),
        forall|q: int| 0 <= q < j ==> all.contains(#[trigger] ids[q]),
    ensures
        j < ids.len() && !all.contains(ids[j]) ==> first_stale(all, ids) == Some(j),
        j == ids.len() ==> first_stale(all, ids) is None,
{
    if j < ids.len() && !all.contains(ids[j]) {
        assert(0 <= j < ids.len() && !all.contains(ids[j]) && forall|q: int| 0 <= q < j ==> all.contains(#[trigger] ids[q]));
        let w = choose|w: int| 0 <= w < ids.len() && !all.contains(#[trigger] ids[w]) && forall|q: int| 0 <= q < w ==> all.contains(#[trigger] ids[q]);
        if w < j {
            assert(all.contains(ids[w]));
        } else if w > j {
            assert(all.contains(ids[j]));
        }
    }
}

/// How an import lands.
#[derive(Clone, Copy, Debug, PartialEq, Eq)]
pub enum ImportMode {
    /// Into a new space.
    NewSpace,
    /// Merged into the current space.
    Merge,
    /// Replacing the current space's data.
    Overwrite,
}

/// Contract name of an import mode.
pub open spec fn mode_name_spec(mode: ImportMode) -> Seq<char> {
    match mode {
        ImportMode::NewSpace => "newSpace"@,
        ImportMode::Merge => "merge"@,
        ImportMode::Overwrite => "overwrite"@,
    }
}

/// The mode a contract name gives: absent means a new space; an unknown name is an error.
pub open spec fn parse_mode_spec(raw: Option<Seq<char>>) -> Result<ImportMode, Seq<char>> {
    match raw {
        None => Ok(ImportMode::NewSpace),
        Some(name) => if name == "newSpace"@ {
            Ok(ImportMode::NewSpace)
        } else if name == "merge"@ {
            Ok(ImportMode::Merge)
        } else if name == "overwrite"@ {
            Ok(ImportMode::Overwrite)
        } else {
            Err("不认识的导入模式 "@ + name)
        },
    }
}

/// Parses the import mode the front end sent.
pub fn parse_import_mode(raw: Option<&str>) -> (r: Result<ImportMode, String>)
    ensures
        match parse_mode_spec(match raw { Some(s) => Some(s@), None => None }) {
            Ok(m) => r == Ok::<ImportMode, String>(m),
            Err(e) => r is Err && r->Err_0@ == e,
        },
{
    match raw {
        None => Ok(ImportMode::NewSpace),
        Some(name) => {
            if str_eq(name, "newSpace") {
                Ok(ImportMode::NewSpace)
            } else if str_eq(name, "merge") {
                Ok(ImportMode::Merge)
            } else if str_eq(name, "overwrite") {
                Ok(ImportMode::Overwrite)
            } else {
                Err(concat2("不认识的导入模式 ", name))
            }
        },
    }
}

/// Contract name of an import mode.
pub fn plan_mode_name(mode: ImportMode) -> (r: &'static str)
    ensures
        r@ == mode_name_spec(mode),
{
    match mode {
        ImportMode::NewSpace => "newSpace",
        ImportMode::Merge => "merge",
        ImportMode::Overwrite => "overwrite",
    }
}

/// The contract name of a mode parses back to that mode.
pub proof fn import_mode_names_round_trip(mode: ImportMode)
    ensures
        parse_mode_spec(Some(mode_name_spec(mode))) == Ok::<ImportMode, Seq<char>>(mode),
{
    reveal_strlit("newSpace");
    reveal_strlit("merge");
    reveal_strlit("overwrite");
    // The three names have different lengths.
    assert("newSpace"@.len() == 8 && "merge"@.len() == 5 && "overwrite"@.len() == 9);
}

} // verus!
