//! The checks around planning and committing an import: the name of a new
//! space, a package that was already imported, and the re-checks before a
//! commit (the file was not replaced, it is the same package, the local
//! data did not change since the preview).

use vstd::prelude::*;

use crate::text::{owned, str_eq, trim, trim_spec};

verus! {

/// A space of the index as the duplicate check reads it.
#[derive(Debug, PartialEq, Eq)]
pub struct IndexedSpace {
    /// Space id.
    pub space_id: String,
    /// Display name.
    pub display_name: String,
    /// Package id and import time, for a space that came from an import.
    pub imported_from: Option<(String, String)>,
}

/// A package already imported: into which space and when.
#[derive(Debug, PartialEq, Eq)]
pub struct DuplicateHint {
    /// Space id.
    pub space_id: String,
    /// Space name.
    pub space_name: String,
    /// Import time.
    pub imported_at: String,
}

/// The space was imported from package `package_id`.
pub open spec fn imported_from_package(s: IndexedSpace, package_id: Seq<char>) -> bool {
    s.imported_from matches Some(p) && p.0@ == package_id
}

/// When the space was imported (empty for a space that was not).
pub open spec fn import_time(s: IndexedSpace) -> Seq<char> {
    match s.imported_from {
        Some((_, at)) => at@,
        None => Seq::empty(),
    }
}

/// The first space of the index imported from the package, if any.
pub fn find_duplicate(index: &Vec<IndexedSpace>, package_id: &str) -> (r: Option<DuplicateHint>)
    ensures
        r is None <==> forall|i: int| 0 <= i < index@.len() ==> !imported_from_package(#[trigger] index@[i], package_id@),
        r matches Some(h) ==> exists|i: int|
            0 <= i < index@.len() && imported_from_package(#[trigger] index@[i], package_id@) && (forall|j: int|
                0 <= j < i ==> !imported_from_package(#[trigger] index@[j], package_id@)) && h.space_id@ == index@[i].space_id@
                && h.space_name@ == index@[i].display_name@ && h.imported_at@ == import_time(index@[i]),
{
    let mut i: usize = 0;
    while i < index.len()
        invariant
            i <= index@.len(),
            forall|j: int| 0 <= j < i ==> !imported_from_package(#[trigger] index@[j], package_id@),
        decreases index@.len() - i,
    {
        let s = &index[i];
        match &s.imported_from {
            Some((id, at)) => {
                if str_eq(id.as_str(), package_id) {
                    return Some(
                        DuplicateHint {
                            space_id: s.space_id.clone(),
                            space_name: s.display_name.clone(),
                            imported_at: at.clone(),
                        },
                    );
                }
            },
            None => {},
        }
        i = i + 1;
    }
    None
}

/// Refusal of a second import of the same package into a new space.
pub open spec fn duplicate_message(imported_at: Seq<char>, space_name: Seq<char>) -> Seq<char> {
    "该数据包已于 "@ + imported_at + " 导入到空间「"@ + space_name + "」；确认要再导入一份时请显式选择"@
}

/// The refusal of an import that was already made, unless the user allows it.
pub fn duplicate_refusal(hint: &DuplicateHint) -> (r: String)
    ensures
        r@ == duplicate_message(hint.imported_at@, hint.space_name@),
{
    let mut m = owned("该数据包已于 ");
    m.append(hint.imported_at.as_str());
    m.append(" 导入到空间「");
    m.append(hint.space_name.as_str());
    m.append("」；确认要再导入一份时请显式选择");
    m
}

/// The name of a new space: trimmed, and required.
pub fn new_space_name(raw: &str) -> (r: Result<String, String>)
    ensures
        trim_spec(raw@).len() > 0 ==> (r matches Ok(n) && n@ == trim_spec(raw@)),
        trim_spec(raw@).len() == 0 ==> (r matches Err(m) && m@ == "请为新空间命名"@),
{
    let name = trim(raw);
    if name.unicode_len() == 0 {
        return Err(owned("请为新空间命名"));
    }
    Ok(owned(name))
}

/// Before a commit: the package file still has the digest it had at the preview.
pub fn check_package_unchanged(current_digest: &str, planned_digest: &str) -> (r: Result<(), String>)
    ensures
        current_digest@ == planned_digest@ ==> r is Ok,
        current_digest@ != planned_digest@ ==> (r matches Err(m) && m@ == "数据包内容已改变，请重新预览后再提交"@),
{
    if str_eq(current_digest, planned_digest) {
        Ok(())
    } else {
        Err(owned("数据包内容已改变，请重新预览后再提交"))
    }
}

/// Before a commit: the package opened again is the one that was planned.
pub fn check_same_package(opened_package_id: &str, planned_package_id: &str) -> (r: Result<(), String>)
    ensures
        opened_package_id@ == planned_package_id@ ==> r is Ok,
        opened_package_id@ != planned_package_id@ ==> (r matches Err(m) && m@ == "数据包与预览的不是同一份，请重新预览后再提交"@),
{
    if str_eq(opened_package_id, planned_package_id) {
        Ok(())
    } else {
        Err(owned("数据包与预览的不是同一份，请重新预览后再提交"))
    }
}

/// Before a merge commit: the storage revision is still the one the preview saw.
pub fn check_revision(expected: Option<&str>, current: &str) -> (r: Result<(), String>)
    ensures
        (expected matches Some(e) && e@ == current@) ==> r is Ok,
        !(expected matches Some(e) && e@ == current@) ==> (r matches Err(m) && m@ == "预览之后本地数据有变化，请重新预览后再提交"@),
{
    match expected {
        Some(e) => {
            if str_eq(e, current) {
                return Ok(());
            }
        },
        None => {},
    }
    Err(owned("预览之后本地数据有变化，请重新预览后再提交"))
}

} // verus!
