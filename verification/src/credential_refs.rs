//! Credential references reported by plugins: which configuration objects use
//! a credential. A failed scan is reported as unknown, never as zero references.

use vstd::prelude::*;

use crate::text::{is_stable_order, owned, stable_order, str_eq};

verus! {

/// One reference: which plugin object uses the credential.
#[derive(Debug, PartialEq, Eq)]
pub struct CredentialReference {
    /// Plugin id.
    pub owner: String,
    /// Referenced credential id.
    pub credential_id: String,
    /// Stable id of the referencing object.
    pub object_id: String,
    /// Display name of the referencing object.
    pub object_name: String,
}

/// Scan state of one plugin.
#[derive(Debug, PartialEq, Eq)]
pub enum ScanState {
    /// Scan succeeded (zero references is a success too).
    Succeeded,
    /// Scan failed, with the reason; the count is unknown.
    Unknown(String),
}

/// References of one plugin to the credential.
#[derive(Debug, PartialEq, Eq)]
pub struct OwnerReferences {
    /// Plugin id.
    pub owner: String,
    /// Referencing objects.
    pub references: Vec<CredentialReference>,
    /// Scan state.
    pub status: ScanState,
}

/// Reference summary of one credential.
#[derive(Debug, PartialEq, Eq)]
pub struct ReferenceSummary {
    /// Credential id.
    pub credential_id: String,
    /// Per-plugin results, ordered by plugin id.
    pub owners: Vec<OwnerReferences>,
    /// Number of references (successful scans only).
    pub total: usize,
    /// Plugins whose scan failed (count unknown), ordered.
    pub unknown_owners: Vec<String>,
}

impl ReferenceSummary {
    /// Some plugin's count is unknown: deleting as "unreferenced" is not safe.
    pub fn has_unknown(&self) -> (r: bool)
        ensures
            r == (self.unknown_owners@.len() > 0),
    {
        self.unknown_owners.len() > 0
    }

    /// Re-check before deletion: every count known and equal to what was confirmed.
    pub fn matches_total(&self, expected: usize) -> (r: bool)
        ensures
            r == (self.unknown_owners@.len() == 0 && self.total == expected),
    {
        !self.has_unknown() && self.total == expected
    }
}

/// The scan results of the plugins: (plugin id, all its references or the failure).
pub type ScanResults = Vec<(&'static str, Result<Vec<CredentialReference>, String>)>;

/// The references that point at credential `id`.
pub open spec fn refs_to(all: Seq<CredentialReference>, id: Seq<char>) -> Seq<CredentialReference> {
    all.filter(|r: CredentialReference| r.credential_id@ == id)
}

/// Count of references to `id` over the successful scans of a prefix.
pub open spec fn ok_total(scanned: Seq<(&'static str, Result<Vec<CredentialReference>, String>)>, id: Seq<char>) -> int
    decreases scanned.len(),
{
    if scanned.len() == 0 {
        0
    } else {
        ok_total(scanned.drop_last(), id) + match scanned.last().1 {
            Ok(all) => refs_to(all@, id).len() as int,
            Err(_) => 0,
        }
    }
}

/// Total number of scanned references (any credential), an upper bound of the count.
pub open spec fn scanned_total(scanned: Seq<(&'static str, Result<Vec<CredentialReference>, String>)>) -> int
    decreases scanned.len(),
{
    if scanned.len() == 0 {
        0
    } else {
        scanned_total(scanned.drop_last()) + match scanned.last().1 {
            Ok(all) => all@.len() as int,
            Err(_) => 0,
        }
    }
}

/// Sort keys of references: (object name, object id).
pub open spec fn reference_keys(refs: Seq<CredentialReference>) -> Seq<(Seq<char>, Seq<char>)> {
    refs.map_values(|r: CredentialReference| (r.object_name@, r.object_id@))
}

/// `out` is `items` stably sorted by `keys`.
pub open spec fn sorted_as<T>(items: Seq<T>, keys: Seq<(Seq<char>, Seq<char>)>, out: Seq<T>) -> bool {
    exists|order: Seq<usize>|
        is_stable_order(keys, order) && out.len() == order.len() && forall|k: int|
            0 <= k < order.len() ==> #[trigger] out[k] == items[order[k] as int]
}

/// Sort keys of plugins: (plugin id, "").
pub open spec fn owner_keys(scanned: Seq<(&'static str, Result<Vec<CredentialReference>, String>)>) -> Seq<(Seq<char>, Seq<char>)> {
    scanned.map_values(|s: (&'static str, Result<Vec<CredentialReference>, String>)| (s.0@, Seq::<char>::empty()))
}

/// An entry of the summary is the scan result of plugin `owner`.
pub open spec fn entry_of(entry: OwnerReferences, owner: &'static str, result: Result<Vec<CredentialReference>, String>, id: Seq<char>) -> bool {
    &&& entry.owner@ == owner@
    &&& match result {
        Ok(all) => entry.status == ScanState::Succeeded && sorted_as(
            refs_to(all@, id),
            reference_keys(refs_to(all@, id)),
            entry.references@,
        ),
        Err(reason) => entry.status == ScanState::Unknown(reason) && entry.references@.len() == 0,
    }
}

/// Field-by-field copy of a reference.
fn copy_reference(r: &CredentialReference) -> (c: CredentialReference)
    ensures
        c == *r,
{
    CredentialReference {
        owner: r.owner.clone(),
        credential_id: r.credential_id.clone(),
        object_id: r.object_id.clone(),
        object_name: r.object_name.clone(),
    }
}

/// The references to `id`, stably sorted by (object name, object id).
fn sorted_references_to(all: &Vec<CredentialReference>, id: &str) -> (out: Vec<CredentialReference>)
    ensures
        sorted_as(refs_to(all@, id@), reference_keys(refs_to(all@, id@)), out@),
{
    let mut picked: Vec<CredentialReference> = Vec::new();
    let mut i: usize = 0;
    while i < all.len()
        invariant
            i <= all@.len(),
            picked@ == refs_to(all@.subrange(0, i as int), id@),
        decreases all@.len() - i,
    {
        proof {
            reveal_with_fuel(Seq::<_>::filter, 1);
            assert(all@.subrange(0, i + 1).drop_last() =~= all@.subrange(0, i as int));
        }
        if str_eq(all[i].credential_id.as_str(), id) {
            picked.push(copy_reference(&all[i]));
        }
        i = i + 1;
    }
    assert(all@.subrange(0, all@.len() as int) =~= all@);
    let mut keys: Vec<(String, String)> = Vec::new();
    let mut j: usize = 0;
    while j < picked.len()
        invariant
            j <= picked@.len(),
            keys@.len() == j,
            forall|k: int| 0 <= k < j ==> #[trigger] keys@[k].0@ == picked@[k].object_name@ && keys@[k].1@ == picked@[k].object_id@,
        decreases picked@.len() - j,
    {
        keys.push((picked[j].object_name.clone(), picked[j].object_id.clone()));
        j = j + 1;
    }
    assert(crate::text::key_views(keys@) =~= reference_keys(picked@));
    let order = stable_order(&keys);
    let mut out: Vec<CredentialReference> = Vec::new();
    let mut k: usize = 0;
    while k < order.len()
        invariant
            k <= order@.len(),
            order@.len() == picked@.len(),
            forall|q: int| 0 <= q < order@.len() ==> order@[q] < picked@.len(),
            out@.len() == k,
            forall|q: int| 0 <= q < k ==> #[trigger] out@[q] == picked@[order@[q] as int],
        decreases order@.len() - k,
    {
        out.push(copy_reference(&picked[order[k]]));
        k = k + 1;
    }
    assert(is_stable_order(reference_keys(picked@), order@));
    out
}

/// Summarizes the plugins' scans for one credential: references to it are
/// counted for successful scans only, failed scans are listed as unknown, and
/// entries come ordered by plugin id (references by object name, then id).
pub fn aggregate(credential_id: &str, scanned: ScanResults) -> (r: ReferenceSummary)
    requires
        scanned_total(scanned@) <= usize::MAX,
    ensures
        r.credential_id@ == credential_id@,
        r.total == ok_total(scanned@, credential_id@),
        sorted_owner_entries(scanned@, credential_id@, r.owners@),
        r.unknown_owners@.map_values(|o: String| o@) == r.owners@.filter(
            |e: OwnerReferences| e.status is Unknown,
        ).map_values(|e: OwnerReferences| e.owner@),
        (r.unknown_owners@.len() > 0) <==> exists|i: int| 0 <= i < scanned@.len() && (#[trigger] scanned@[i]).1 is Err,
{
    let n = scanned.len();
    let mut total: usize = 0;
    let mut i: usize = 0;
    proof {
        lemma_scanned_total_prefix(scanned@, 0);
        assert(scanned@.subrange(0, 0) =~= Seq::<(&'static str, Result<Vec<CredentialReference>, String>)>::empty());
    }
    while i < n
        invariant
            n == scanned@.len(),
            i <= n,
            scanned_total(scanned@) <= usize::MAX,
            total == ok_total(scanned@.subrange(0, i as int), credential_id@),
            ok_total(scanned@.subrange(0, i as int), credential_id@) <= scanned_total(scanned@.subrange(0, i as int)),
            scanned_total(scanned@.subrange(0, i as int)) <= scanned_total(scanned@),
        decreases n - i,
    {
        proof {
            let pre = scanned@.subrange(0, i + 1);
            assert(pre.drop_last() =~= scanned@.subrange(0, i as int));
            lemma_scanned_total_prefix(scanned@, i + 1);
        }
        match &scanned[i].1 {
            Ok(all) => {
                let count = count_references_to(all, credential_id);
                proof {
                    let pre = scanned@.subrange(0, i + 1);
                    assert(pre.last() == scanned@[i as int]);
                }
                total = total + count;
            },
            Err(_) => {
                proof {
                    let pre = scanned@.subrange(0, i + 1);
                    assert(pre.last() == scanned@[i as int]);
                }
            },
        }
        i = i + 1;
    }
    assert(scanned@.subrange(0, n as int) =~= scanned@);
    let mut keys: Vec<(String, String)> = Vec::new();
    let mut j: usize = 0;
    while j < n
        invariant
            n == scanned@.len(),
            j <= n,
            keys@.len() == j,
            forall|k: int| 0 <= k < j ==> #[trigger] keys@[k].0@ == scanned@[k].0@ && keys@[k].1@ == Seq::<char>::empty(),
        decreases n - j,
    {
        proof {
            reveal_strlit("");
        }
        keys.push((owned(scanned[j].0), owned("")));
        j = j + 1;
    }
    proof {
        reveal_strlit("");
        assert(crate::text::key_views(keys@) =~= owner_keys(scanned@));
    }
    let order = stable_order(&keys);
    let mut owners: Vec<OwnerReferences> = Vec::new();
    let mut unknown_owners: Vec<String> = Vec::new();
    let mut k: usize = 0;
    while k < n
        invariant
            n == scanned@.len(),
            k <= n,
            order@.len() == n,
            is_stable_order(owner_keys(scanned@), order@),
            owners@.len() == k,
            forall|q: int| 0 <= q < k ==> entry_of(#[trigger] owners@[q], scanned@[order@[q] as int].0, scanned@[order@[q] as int].1, credential_id@),
            unknown_owners@.map_values(|o: String| o@) == owners@.filter(|e: OwnerReferences| e.status is Unknown).map_values(|e: OwnerReferences| e.owner@),
        decreases n - k,
    {
        let idx = order[k];
        let owner = scanned[idx].0;
        let ghost before_owners = owners@;
        let ghost before_unknown = unknown_owners@;
        let entry = match &scanned[idx].1 {
            Ok(all) => OwnerReferences {
                owner: owned(owner),
                references: sorted_references_to(all, credential_id),
                status: ScanState::Succeeded,
            },
            Err(reason) => {
                unknown_owners.push(owned(owner));
                OwnerReferences { owner: owned(owner), references: Vec::new(), status: ScanState::Unknown(reason.clone()) }
            },
        };
        owners.push(entry);
        proof {
            reveal_with_fuel(Seq::<_>::filter, 1);
            assert(owners@.drop_last() =~= before_owners);
            let f = |e: OwnerReferences| e.status is Unknown;
            let g = |e: OwnerReferences| e.owner@;
            if owners@.last().status is Unknown {
                assert(owners@.filter(f) =~= before_owners.filter(f).push(owners@.last()));
                assert(unknown_owners@.map_values(|o: String| o@) =~= before_unknown.map_values(|o: String| o@).push(owner@));
                assert(owners@.filter(f).map_values(g) =~= before_owners.filter(f).map_values(g).push(owner@));
            } else {
                assert(owners@.filter(f) =~= before_owners.filter(f));
                assert(unknown_owners@ =~= before_unknown);
            }
        }
        k = k + 1;
    }
    let r = ReferenceSummary { credential_id: owned(credential_id), owners, total, unknown_owners };
    proof {
        failed_scan_is_unknown(scanned@, credential_id@, r);
    }
    r
}

/// The entries are the plugins' scan results in stable order of plugin id.
pub open spec fn sorted_owner_entries(
    scanned: Seq<(&'static str, Result<Vec<CredentialReference>, String>)>,
    id: Seq<char>,
    owners: Seq<OwnerReferences>,
) -> bool {
    exists|order: Seq<usize>|
        is_stable_order(owner_keys(scanned), order) && owners.len() == order.len() && forall|k: int|
            0 <= k < order.len() ==> entry_of(#[trigger] owners[k], scanned[order[k] as int].0, scanned[order[k] as int].1, id)
}

/// Number of references to `id` in `all`.
fn count_references_to(all: &Vec<CredentialReference>, id: &str) -> (c: usize)
    ensures
        c == refs_to(all@, id@).len(),
        c <= all@.len(),
{
    let mut c: usize = 0;
    let mut i: usize = 0;
    while i < all.len()
        invariant
            i <= all@.len(),
            c == refs_to(all@.subrange(0, i as int), id@).len(),
            c <= i,
        decreases all@.len() - i,
    {
        proof {
            reveal_with_fuel(Seq::<_>::filter, 1);
            assert(all@.subrange(0, i + 1).drop_last() =~= all@.subrange(0, i as int));
        }
        if str_eq(all[i].credential_id.as_str(), id) {
            c = c + 1;
        }
        i = i + 1;
    }
    assert(all@.subrange(0, all@.len() as int) =~= all@);
    c
}

/// The scanned total of a prefix is at most that of the whole, and the
/// count of references to a credential is at most the scanned total.
proof fn lemma_scanned_total_prefix(scanned: Seq<(&'static str, Result<Vec<CredentialReference>, String>)>, i: int)
    requires
        0 <= i <= scanned.len(),
    ensures
        scanned_total(scanned.subrange(0, i)) <= scanned_total(scanned),
    decreases scanned.len() - i,
{
    if i < scanned.len() {
        lemma_scanned_total_prefix(scanned, i + 1);
        assert(scanned.subrange(0, i + 1).drop_last() =~= scanned.subrange(0, i));
    } else {
        assert(scanned.subrange(0, i) =~= scanned);
    }
}

/// A failed scan is never reported as zero references: for a summary made
/// by `aggregate`, some plugin's count is unknown exactly when some scan
/// failed.
pub proof fn failed_scan_is_unknown(
    scanned: Seq<(&'static str, Result<Vec<CredentialReference>, String>)>,
    id: Seq<char>,
    s: ReferenceSummary,
)
    requires
        scanned.len() <= usize::MAX,
        sorted_owner_entries(scanned, id, s.owners@),
        s.unknown_owners@.map_values(|o: String| o@) == s.owners@.filter(|e: OwnerReferences| e.status is Unknown).map_values(
            |e: OwnerReferences| e.owner@,
        ),
    ensures
        (s.unknown_owners@.len() > 0) <==> exists|i: int| 0 <= i < scanned.len() && (#[trigger] scanned[i]).1 is Err,
{
    let owners = s.owners@;
    let order = choose|order: Seq<usize>|
        is_stable_order(owner_keys(scanned), order) && owners.len() == order.len() && forall|k: int|
            0 <= k < order.len() ==> entry_of(#[trigger] owners[k], scanned[order[k] as int].0, scanned[order[k] as int].1, id);
    let unknown = owners.filter(|e: OwnerReferences| e.status is Unknown);
    assert(s.unknown_owners@.len() == unknown.len()) by {
        assert(s.unknown_owners@.map_values(|o: String| o@).len() == s.unknown_owners@.len());
    }
    if s.unknown_owners@.len() > 0 {
        let e = unknown[0];
        owners.lemma_filter_pred(|e: OwnerReferences| e.status is Unknown, 0);
        assert(unknown.contains(e));
        owners.lemma_filter_contains_rev(|e: OwnerReferences| e.status is Unknown, e);
        let k = choose|k: int| 0 <= k < owners.len() && owners[k] == e;
        assert(entry_of(owners[k], scanned[order[k] as int].0, scanned[order[k] as int].1, id));
        assert(scanned[order[k] as int].1 is Err);
    }
    if exists|i: int| 0 <= i < scanned.len() && (#[trigger] scanned[i]).1 is Err {
        let i = choose|i: int| 0 <= i < scanned.len() && (#[trigger] scanned[i]).1 is Err;
        let j: usize = i as usize;
        assert(j as int == i);
        assert(order.contains(j));
        let k = choose|k: int| 0 <= k < order.len() && order[k] == j;
        assert(entry_of(owners[k], scanned[order[k] as int].0, scanned[order[k] as int].1, id));
        assert(owners[k].status is Unknown);
        owners.lemma_filter_contains(|e: OwnerReferences| e.status is Unknown, k);
        assert(unknown.contains(owners[k]));
        assert(unknown.len() > 0);
    }
}

} // verus!
