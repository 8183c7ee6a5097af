//! Logical records shared by the record-store adapters: required string
//! fields, the declared field set of a version, the display name of a
//! record, the selection of records by id and the catalog of a dataset.
//!
//! A record is modelled as deep as these rules read it: a JSON object whose
//! fields are strings or anything else (carried as JSON text), or anything
//! else.

use vstd::prelude::*;

use crate::data_transfer::types::{CatalogEntry, DatasetDescriptor, TransportPolicy};
use crate::text::{concat3, owned, str_eq, views};

verus! {

/// A field of a record: a string, or any other JSON value as its text.
#[derive(Debug, PartialEq, Eq)]
pub enum Field {
    /// A JSON string.
    Text(String),
    /// Any other JSON value.
    Other(String),
}

/// A logical record: an object of fields, or any other JSON value.
#[derive(Debug, PartialEq, Eq)]
pub enum Record {
    /// A JSON object, field by field.
    Object(Vec<(String, Field)>),
    /// Any other JSON value.
    Other(String),
}

/// The first field named `name`.
pub open spec fn first_field(fs: Seq<(String, Field)>, name: Seq<char>) -> Option<Field>
    decreases fs.len(),
{
    if fs.len() == 0 {
        None
    } else if fs[0].0@ == name {
        Some(fs[0].1)
    } else {
        first_field(fs.drop_first(), name)
    }
}

/// `first_field` is the field of the first entry with that name.
proof fn lemma_first_field(fs: Seq<(String, Field)>, name: Seq<char>, i: int)
    requires
        0 <= i <= fs.len(),
        forall|j: int| 0 <= j < i ==> (#[trigger] fs[j]).0@ != name,
    ensures
        i < fs.len() && fs[i].0@ == name ==> first_field(fs, name) == Some(fs[i].1),
        i == fs.len() ==> first_field(fs, name) is None,
    decreases i,
{
    if i > 0 {
        assert forall|j: int| 0 <= j < i - 1 implies (#[trigger] fs.drop_first()[j]).0@ != name by {
            assert(fs.drop_first()[j] == fs[j + 1]);
        }
        lemma_first_field(fs.drop_first(), name, i - 1);
        if i < fs.len() {
            assert(fs.drop_first()[i - 1] == fs[i]);
        }
    } else if fs.len() > 0 {
    }
}

/// The text of string field `name`, when the record is an object with such a string field.
pub open spec fn text_field(r: Record, name: Seq<char>) -> Option<Seq<char>> {
    match r {
        Record::Object(fs) => match first_field(fs@, name) {
            Some(Field::Text(t)) => Some(t@),
            _ => None,
        },
        Record::Other(_) => None,
    }
}

/// The report of a required string field that is missing or not a string.
pub open spec fn missing_string_message(field: Seq<char>) -> Seq<char> {
    "导入记录字段 "@ + field + " 必须为字符串"@
}

/// The position of the first field named `name`.
pub(crate) fn find_field(fs: &Vec<(String, Field)>, name: &str) -> (r: Option<usize>)
    ensures
        r matches Some(i) ==> i < fs@.len() && first_field(fs@, name@) == Some(fs@[i as int].1),
        r is None ==> first_field(fs@, name@) is None,
{
    let mut i: usize = 0;
    while i < fs.len()
        invariant
            i <= fs@.len(),
            forall|j: int| 0 <= j < i ==> (#[trigger] fs@[j]).0@ != name@,
        decreases fs@.len() - i,
    {
        if str_eq(fs[i].0.as_str(), name) {
            proof {
                lemma_first_field(fs@, name@, i as int);
            }
            return Some(i);
        }
        i = i + 1;
    }
    proof {
        lemma_first_field(fs@, name@, i as int);
    }
    None
}

/// A required string field.
pub fn string<'a>(record: &'a Record, field: &str) -> (r: Result<&'a str, String>)
    ensures
        match text_field(*record, field@) {
            Some(t) => r matches Ok(s) && s@ == t,
            None => r matches Err(m) && m@ == missing_string_message(field@),
        },
{
    if let Record::Object(fs) = record {
        if let Some(i) = find_field(fs, field) {
            if let Field::Text(t) = &fs[i].1 {
                return Ok(t.as_str());
            }
        }
    }
    let m = concat3("导入记录字段 ", field, " 必须为字符串");
    proof {
        reveal_strlit("导入记录字段 ");
        reveal_strlit(" 必须为字符串");
    }
    Err(m)
}

/// Text views of string slices.
pub open spec fn str_views(a: Seq<&str>) -> Seq<Seq<char>> {
    a.map_values(|s: &str| s@)
}

/// Some field is not among the allowed ones.
pub open spec fn unknown_field(fs: Seq<(String, Field)>, allowed: Seq<Seq<char>>) -> bool {
    exists|i: int| 0 <= i < fs.len() && !allowed.contains((#[trigger] fs[i]).0@)
}

/// What checking a record against the declared fields of a version gives.
pub open spec fn fields_spec(r: Record, allowed: Seq<Seq<char>>) -> Result<(), Seq<char>> {
    match r {
        Record::Other(_) => Err("导入记录必须是对象"@),
        Record::Object(fs) => if unknown_field(fs@, allowed) {
            Err("导入记录包含当前版本不支持的字段"@)
        } else {
            Ok(())
        },
    }
}

/// Accepts only the fields a version declares: an unknown field is refused
/// rather than silently dropped.
pub fn fields(record: &Record, allowed: &[&str]) -> (r: Result<(), String>)
    ensures
        match fields_spec(*record, str_views(allowed@)) {
            Ok(()) => r is Ok,
            Err(e) => r matches Err(m) && m@ == e,
        },
{
    proof {
        reveal_strlit("导入记录必须是对象");
        reveal_strlit("导入记录包含当前版本不支持的字段");
    }
    match record {
        Record::Other(_) => Err(owned("导入记录必须是对象")),
        Record::Object(fs) => {
            let mut i: usize = 0;
            while i < fs.len()
                invariant
                    *record == Record::Object(*fs),
                    i <= fs@.len(),
                    forall|k: int| 0 <= k < i ==> str_views(allowed@).contains((#[trigger] fs@[k]).0@),
                decreases fs@.len() - i,
            {
                let mut j: usize = 0;
                let mut known = false;
                while j < allowed.len() && !known
                    invariant
                        *record == Record::Object(*fs),
                        i < fs@.len(),
                        j <= allowed@.len(),
                        known ==> str_views(allowed@).contains(fs@[i as int].0@),
                        !known ==> forall|q: int| 0 <= q < j ==> (#[trigger] allowed@[q])@ != fs@[i as int].0@,
                    decreases allowed@.len() - j,
                {
                    if str_eq(allowed[j], fs[i].0.as_str()) {
                        assert(str_views(allowed@)[j as int] == fs@[i as int].0@);
                        known = true;
                    }
                    j = j + 1;
                }
                if !known {
                    proof {
                        if str_views(allowed@).contains(fs@[i as int].0@) {
                            let q = choose|q: int| 0 <= q < str_views(allowed@).len() && str_views(allowed@)[q] == fs@[i as int].0@;
                            assert(allowed@[q]@ == fs@[i as int].0@);
                        }
                        assert(!str_views(allowed@).contains(fs@[i as int].0@));
                        assert(unknown_field(fs@, str_views(allowed@)));
                        assert(fields_spec(*record, str_views(allowed@)) == Err::<(), Seq<char>>(
                            "导入记录包含当前版本不支持的字段"@,
                        ));
                    }
                    return Err(owned("导入记录包含当前版本不支持的字段"));
                }
                i = i + 1;
            }
            Ok(())
        },
    }
}

/// The display name of a record: its first string field among `label`,
/// `name`, `title` and `id`; empty when it has none.
pub open spec fn label_spec(r: Record) -> Seq<char> {
    if text_field(r, "label"@) is Some {
        text_field(r, "label"@)->0
    } else if text_field(r, "name"@) is Some {
        text_field(r, "name"@)->0
    } else if text_field(r, "title"@) is Some {
        text_field(r, "title"@)->0
    } else if text_field(r, "id"@) is Some {
        text_field(r, "id"@)->0
    } else {
        Seq::empty()
    }
}

/// The display name of a record.
pub fn label<'a>(record: &'a Record) -> (r: &'a str)
    ensures
        r@ == label_spec(*record),
{
    proof {
        reveal_strlit("label");
        reveal_strlit("name");
        reveal_strlit("title");
        reveal_strlit("id");
        reveal_strlit("");
    }
    if let Ok(s) = string(record, "label") {
        return s;
    }
    if let Ok(s) = string(record, "name") {
        return s;
    }
    if let Ok(s) = string(record, "title") {
        return s;
    }
    if let Ok(s) = string(record, "id") {
        return s;
    }
    ""
}

/// The id of a record, when it has a string id.
pub open spec fn record_id(r: Record) -> Option<Seq<char>> {
    text_field(r, "id"@)
}

/// The record is among the selected ones.
pub open spec fn picked(r: Record, ids: Seq<Seq<char>>) -> bool {
    record_id(r) matches Some(id) && ids.contains(id)
}

/// No record has this id.
pub open spec fn unmatched(records: Seq<Record>, id: Seq<char>) -> bool {
    forall|i: int| 0 <= i < records.len() ==> record_id(#[trigger] records[i]) != Some(id)
}

/// Some selected id matches no record.
pub open spec fn stale_selection(records: Seq<Record>, ids: Seq<Seq<char>>) -> bool {
    exists|j: int| 0 <= j < ids.len() && unmatched(records, #[trigger] ids[j])
}

/// The records picked by `ids`, in order.
pub open spec fn picked_records(records: Seq<Record>, ids: Seq<Seq<char>>) -> Seq<Record>
    decreases records.len(),
{
    if records.len() == 0 {
        Seq::empty()
    } else if picked(records.last(), ids) {
        picked_records(records.drop_last(), ids).push(records.last())
    } else {
        picked_records(records.drop_last(), ids)
    }
}

/// The id of a record, when it has a string id.
fn id_of(record: &Record) -> (r: Option<&str>)
    ensures
        match record_id(*record) {
            Some(t) => r matches Some(s) && s@ == t,
            None => r is None,
        },
{
    proof {
        reveal_strlit("id");
    }
    match string(record, "id") {
        Ok(s) => Some(s),
        Err(_) => None,
    }
}

/// Keeps the selected records: an empty id list selects the whole dataset;
/// an id that matches no record means the list is stale and is refused.
pub fn select(records: Vec<Record>, ids: &[String]) -> (r: Result<Vec<Record>, String>)
    ensures
        if ids@.len() == 0 {
            r matches Ok(v) && v@ == records@
        } else if stale_selection(records@, views(ids@)) {
            r matches Err(m) && m@ == "所选记录已变化，请刷新后重新选择"@
        } else {
            r matches Ok(v) && v@ == picked_records(records@, views(ids@))
        },
{
    proof {
        reveal_strlit("所选记录已变化，请刷新后重新选择");
    }
    if ids.len() == 0 {
        return Ok(records);
    }
    let ghost orig = records@;
    let ghost idv = views(ids@);
    let mut j: usize = 0;
    while j < ids.len()
        invariant
            j <= ids@.len(),
            records@ == orig,
            idv == views(ids@),
            forall|q: int| 0 <= q < j ==> !unmatched(orig, #[trigger] idv[q]),
        decreases ids@.len() - j,
    {
        let mut i: usize = 0;
        let mut hit = false;
        while i < records.len() && !hit
            invariant
                i <= records@.len(),
                records@ == orig,
                j < ids@.len(),
                idv == views(ids@),
                hit ==> !unmatched(orig, idv[j as int]),
                !hit ==> forall|k: int| 0 <= k < i ==> record_id(#[trigger] orig[k]) != Some(idv[j as int]),
            decreases records@.len() - i,
        {
            match id_of(&records[i]) {
                Some(s) => {
                    if str_eq(s, ids[j].as_str()) {
                        assert(record_id(orig[i as int]) == Some(idv[j as int]));
                        hit = true;
                    }
                },
                None => {},
            }
            i = i + 1;
        }
        if !hit {
            proof {
                assert(unmatched(orig, idv[j as int]));
                assert(stale_selection(orig, idv));
            }
            return Err(owned("所选记录已变化，请刷新后重新选择"));
        }
        j = j + 1;
    }
    proof {
        if stale_selection(orig, idv) {
            let q = choose|q: int| 0 <= q < idv.len() && unmatched(orig, #[trigger] idv[q]);
            assert(!unmatched(orig, idv[q]));
        }
    }
    let mut rest = records;
    let mut kept: Vec<Record> = Vec::new();
    let ghost mut n: int = 0;
    while rest.len() > 0
        invariant
            0 <= n <= orig.len(),
            rest@ == orig.subrange(n, orig.len() as int),
            idv == views(ids@),
            kept@ == picked_records(orig.subrange(0, n), idv),
        decreases rest@.len(),
    {
        let rec = rest.remove(0);
        proof {
            assert(orig.subrange(0, n + 1).drop_last() =~= orig.subrange(0, n));
            assert(orig[n] == rec);
            assert(rest@ =~= orig.subrange(n + 1, orig.len() as int));
        }
        let mut keep = false;
        match id_of(&rec) {
            Some(s) => {
                let mut q: usize = 0;
                while q < ids.len() && !keep
                    invariant
                        q <= ids@.len(),
                        idv == views(ids@),
                        record_id(rec) == Some(s@),
                        keep ==> idv.contains(s@),
                        !keep ==> forall|p: int| 0 <= p < q ==> (#[trigger] idv[p]) != s@,
                    decreases ids@.len() - q,
                {
                    if str_eq(ids[q].as_str(), s) {
                        assert(idv[q as int] == s@);
                        keep = true;
                    }
                    q = q + 1;
                }
                proof {
                    if !keep && idv.contains(s@) {
                        let p = choose|p: int| 0 <= p < idv.len() && idv[p] == s@;
                    }
                }
            },
            None => {},
        }
        proof {
            assert(keep == picked(rec, idv));
        }
        if keep {
            kept.push(rec);
        }
        proof {
            n = n + 1;
        }
    }
    proof {
        assert(orig.subrange(0, n) =~= orig);
    }
    Ok(kept)
}

/// `e` is the catalog entry of record `r` in dataset `name`.
pub open spec fn entry_of(e: CatalogEntry, name: Seq<char>, r: Record) -> bool {
    &&& e.dataset@ == name
    &&& record_id(r) == Some(e.id@)
    &&& e.label@ == label_spec(r)
    &&& e.detail@ == Seq::<char>::empty()
    &&& e.dependencies@.len() == 0
    &&& e.note is None
}

/// The catalog of a dataset whose records are picked one by one: a portable,
/// selectable dataset of schema version 1 whose entries are its records (by
/// id and display name). A record without a string id is refused.
pub fn descriptor(owner: &str, name: &str, title: &str, records: &[Record]) -> (r: Result<DatasetDescriptor, String>)
    ensures
        if exists|i: int| 0 <= i < records@.len() && record_id(#[trigger] records@[i]) is None {
            r matches Err(m) && m@ == missing_string_message("id"@)
        } else {
            r matches Ok(d) && {
            &&& d.name@ == name@
            &&& d.label@ == title@
            &&& d.owner@ == owner@
            &&& d.policy == TransportPolicy::Portable
            &&& d.schema_version == 1
            &&& d.selectable
            &&& !d.contains_secret
            &&& !d.default_selected
            &&& d.pulls@.len() == 0
            &&& d.note is None
            &&& d.record_count == records@.len()
            &&& d.entries@.len() == records@.len()
            &&& forall|k: int| 0 <= k < records@.len() ==> entry_of(#[trigger] d.entries@[k], name@, records@[k])
            }
        },
{
    proof {
        reveal_strlit("id");
    }
    let mut entries: Vec<CatalogEntry> = Vec::new();
    let mut i: usize = 0;
    while i < records.len()
        invariant
            i <= records@.len(),
            entries@.len() == i,
            forall|k: int| 0 <= k < i ==> entry_of(#[trigger] entries@[k], name@, records@[k]),
        decreases records@.len() - i,
    {
        let id = match string(&records[i], "id") {
            Ok(s) => s,
            Err(e) => {
                proof {
                    assert(record_id(records@[i as int]) is None);
                }
                return Err(e);
            },
        };
        let entry = CatalogEntry {
            dataset: owned(name),
            id: owned(id),
            label: owned(label(&records[i])),
            detail: String::new(),
            dependencies: Vec::new(),
            note: None,
        };
        proof {
            assert(entry.detail@ =~= Seq::<char>::empty());
        }
        entries.push(entry);
        i = i + 1;
    }
    let record_count = entries.len();
    proof {
        assert forall|k: int| 0 <= k < records@.len() implies record_id(#[trigger] records@[k]) is Some by {
            assert(entry_of(entries@[k], name@, records@[k]));
        }
    }
    Ok(DatasetDescriptor {
        name: owned(name),
        label: owned(title),
        owner: owned(owner),
        policy: TransportPolicy::Portable,
        schema_version: 1,
        selectable: true,
        contains_secret: false,
        default_selected: false,
        pulls: Vec::new(),
        note: None,
        record_count,
        entries,
    })
}

} // verus!
