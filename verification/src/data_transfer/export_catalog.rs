//! The export catalog: the datasets every adapter declares, checked and put
//! in name order, and what the export dialog shows of them (dataset
//! summaries, every selectable entry, default ticks and structural warnings).
//!
//! The caller asks each adapter to describe its datasets and hands the
//! answers over; everything decided about them is decided here.

use vstd::prelude::*;

use crate::data_transfer::catalog::{default_names, default_selection};
use crate::data_transfer::types::{
    summarizes, CatalogEntry, DatasetDescriptor, DatasetSummary, DependencyEdge, ExportCatalog,
    TransportPolicy,
};
use crate::text::{
    concat2, decimal, decimal_spec, is_stable_order, key_at, key_views, keyed_lt, lemma_seq_lt_irreflexive,
    lemma_seq_lt_transitive, lemma_seq_lt_trichotomy, owned, seq_lt, stable_order, str_eq, str_lt, views,
};

verus! {

broadcast use vstd::seq_lib::group_to_multiset_ensures;

/// What one adapter answered: its owner id and its datasets, or why it could not describe them.
pub type Described = (String, Result<Vec<DatasetDescriptor>, String>);

/// The report of a dataset declared under another owner than its adapter's.
pub open spec fn owner_mismatch_message(name: Seq<char>, owner: Seq<char>, adapter: Seq<char>) -> Seq<char> {
    "数据集 "@ + name + " 的 owner（"@ + owner + "）与其适配器（"@ + adapter + "）不一致"@
}

/// The report of a dataset name declared twice.
pub open spec fn declared_twice_message(name: Seq<char>) -> Seq<char> {
    "数据集 "@ + name + " 被多个适配器声明"@
}

/// The report of a record count that disagrees with the entries listed.
pub open spec fn count_mismatch_message(name: Seq<char>, count: nat, entries: nat) -> Seq<char> {
    "数据集 "@ + name + " 的 recordCount（"@ + decimal_spec(count) + "）与条目数（"@ + decimal_spec(entries)
        + "）不一致"@
}

/// Some earlier descriptor has this name.
pub open spec fn name_taken(earlier: Seq<DatasetDescriptor>, name: Seq<char>) -> bool {
    exists|j: int| 0 <= j < earlier.len() && (#[trigger] earlier[j]).name@ == name
}

/// What is wrong with descriptor `d` of adapter `adapter`, given the ones accepted before it.
pub open spec fn descriptor_error(adapter: Seq<char>, d: DatasetDescriptor, earlier: Seq<DatasetDescriptor>) -> Option<
    Seq<char>,
> {
    if d.owner@ != adapter {
        Some(owner_mismatch_message(d.name@, d.owner@, adapter))
    } else if name_taken(earlier, d.name@) {
        Some(declared_twice_message(d.name@))
    } else if d.entries@.len() != 0 && d.record_count != d.entries@.len() {
        Some(count_mismatch_message(d.name@, d.record_count as nat, d.entries@.len()))
    } else {
        None
    }
}

/// Accepting the descriptors `ds` of one adapter after `acc`, in order, up to the first fault.
pub open spec fn add_all(adapter: Seq<char>, ds: Seq<DatasetDescriptor>, acc: Seq<DatasetDescriptor>) -> Result<
    Seq<DatasetDescriptor>,
    Seq<char>,
>
    decreases ds.len(),
{
    if ds.len() == 0 {
        Ok(acc)
    } else {
        match add_all(adapter, ds.drop_last(), acc) {
            Err(e) => Err(e),
            Ok(so_far) => match descriptor_error(adapter, ds.last(), so_far) {
                Some(e) => Err(e),
                None => Ok(so_far.push(ds.last())),
            },
        }
    }
}

/// Accepting the answers of the adapters in order, up to the first fault.
pub open spec fn gathered(described: Seq<Described>) -> Result<Seq<DatasetDescriptor>, Seq<char>>
    decreases described.len(),
{
    if described.len() == 0 {
        Ok(Seq::empty())
    } else {
        match gathered(described.drop_last()) {
            Err(e) => Err(e),
            Ok(acc) => match described.last().1 {
                Err(e) => Err(e@),
                Ok(ds) => add_all(described.last().0@, ds@, acc),
            },
        }
    }
}

/// Names in strictly ascending order.
pub open spec fn names_ascending(ds: Seq<DatasetDescriptor>) -> bool {
    forall|i: int, j: int| 0 <= i < j < ds.len() ==> seq_lt(#[trigger] ds[i].name@, #[trigger] ds[j].name@)
}

/// Same descriptor names in both, when they hold the same descriptors.
proof fn lemma_same_names(a: Seq<DatasetDescriptor>, b: Seq<DatasetDescriptor>, name: Seq<char>)
    requires
        a.to_multiset() == b.to_multiset(),
    ensures
        name_taken(a, name) == name_taken(b, name),
{
    if name_taken(a, name) {
        let j = choose|j: int| 0 <= j < a.len() && (#[trigger] a[j]).name@ == name;
        assert(a.contains(a[j]));
        assert(a.to_multiset().count(a[j]) > 0);
        assert(b.to_multiset().count(a[j]) > 0);
        assert(b.contains(a[j]));
        let k = choose|k: int| 0 <= k < b.len() && b[k] == a[j];
        assert(b[k].name@ == name);
    }
    if name_taken(b, name) {
        let j = choose|j: int| 0 <= j < b.len() && (#[trigger] b[j]).name@ == name;
        assert(b.contains(b[j]));
        assert(b.to_multiset().count(b[j]) > 0);
        assert(a.to_multiset().count(b[j]) > 0);
        assert(a.contains(b[j]));
        let k = choose|k: int| 0 <= k < a.len() && a[k] == b[j];
        assert(a[k].name@ == name);
    }
}

/// Whether a descriptor of this name is already in `sorted`.
fn has_name(sorted: &Vec<DatasetDescriptor>, name: &str) -> (r: bool)
    ensures
        r == name_taken(sorted@, name@),
{
    let mut k: usize = 0;
    while k < sorted.len()
        invariant
            k <= sorted@.len(),
            forall|j: int| 0 <= j < k ==> (#[trigger] sorted@[j]).name@ != name@,
        decreases sorted@.len() - k,
    {
        if str_eq(sorted[k].name.as_str(), name) {
            assert(sorted@[k as int].name@ == name@);
            return true;
        }
        k = k + 1;
    }
    false
}

/// The fault of a descriptor against the accepted ones, if any.
fn check_descriptor(adapter: &str, d: &DatasetDescriptor, sorted: &Vec<DatasetDescriptor>) -> (r: Option<String>)
    ensures
        match descriptor_error(adapter@, *d, sorted@) {
            Some(e) => r matches Some(m) && m@ == e,
            None => r is None,
        },
{
    if !str_eq(d.owner.as_str(), adapter) {
        let mut m = concat2("数据集 ", d.name.as_str());
        m.append(" 的 owner（");
        m.append(d.owner.as_str());
        m.append("）与其适配器（");
        m.append(adapter);
        m.append("）不一致");
        proof {
            reveal_strlit("数据集 ");
            reveal_strlit(" 的 owner（");
            reveal_strlit("）与其适配器（");
            reveal_strlit("）不一致");
            assert(m@ =~= owner_mismatch_message(d.name@, d.owner@, adapter@));
        }
        return Some(m);
    }
    if has_name(sorted, d.name.as_str()) {
        let mut m = concat2("数据集 ", d.name.as_str());
        m.append(" 被多个适配器声明");
        proof {
            reveal_strlit("数据集 ");
            reveal_strlit(" 被多个适配器声明");
        }
        return Some(m);
    }
    if d.entries.len() != 0 && d.record_count != d.entries.len() {
        let count = decimal(d.record_count as u64);
        let listed = decimal(d.entries.len() as u64);
        let mut m = concat2("数据集 ", d.name.as_str());
        m.append(" 的 recordCount（");
        m.append(count.as_str());
        m.append("）与条目数（");
        m.append(listed.as_str());
        m.append("）不一致");
        proof {
            reveal_strlit("数据集 ");
            reveal_strlit(" 的 recordCount（");
            reveal_strlit("）与条目数（");
            reveal_strlit("）不一致");
            assert(m@ =~= count_mismatch_message(d.name@, d.record_count as nat, d.entries@.len()));
        }
        return Some(m);
    }
    None
}

/// Puts `d` into the name-ordered `sorted`, whose names all differ from its name.
fn insert_by_name(sorted: &mut Vec<DatasetDescriptor>, d: DatasetDescriptor)
    requires
        names_ascending(old(sorted)@),
        !name_taken(old(sorted)@, d.name@),
    ensures
        names_ascending(final(sorted)@),
        final(sorted)@.to_multiset() == old(sorted)@.to_multiset().insert(d),
{
    let ghost before = sorted@;
    let mut p: usize = 0;
    while p < sorted.len() && str_lt(sorted[p].name.as_str(), d.name.as_str())
        invariant
            p <= sorted@.len(),
            sorted@ == before,
            forall|q: int| 0 <= q < p ==> seq_lt(#[trigger] before[q].name@, d.name@),
        decreases sorted@.len() - p,
    {
        p = p + 1;
    }
    proof {
        if p < before.len() {
            assert(before[p as int].name@ != d.name@);
            lemma_seq_lt_trichotomy(before[p as int].name@, d.name@);
        }
    }
    let ghost name = d.name@;
    sorted.insert(p, d);
    proof {
        let now = sorted@;
        assert forall|a: int, b: int| 0 <= a < b < now.len() implies seq_lt(
            #[trigger] now[a].name@,
            #[trigger] now[b].name@,
        ) by {
            if a == p {
                assert(now[b] == before[b - 1]);
                if b - 1 > p {
                    lemma_seq_lt_transitive(name, before[p as int].name@, before[b - 1].name@);
                }
            } else if b == p {
                assert(now[a] == before[a]);
            } else if a < p && b > p {
                assert(now[a] == before[a] && now[b] == before[b - 1]);
            } else if a > p {
                assert(now[a] == before[a - 1] && now[b] == before[b - 1]);
            } else {
                assert(now[a] == before[a] && now[b] == before[b]);
            }
        }
        vstd::seq_lib::to_multiset_insert(before, p as int, now[p as int]);
    }
}

/// Gathers the datasets the adapters describe, in name order: the first
/// adapter that could not describe its datasets, or the first descriptor that
/// names another owner, repeats a name or lists a different number of entries
/// than it counts, stops the gathering with that report.
pub fn collect_descriptors(described: Vec<Described>) -> (r: Result<Vec<DatasetDescriptor>, String>)
    ensures
        match gathered(described@) {
            Err(e) => r matches Err(m) && m@ == e,
            Ok(all) => r matches Ok(v) && names_ascending(v@) && v@.to_multiset() == all.to_multiset(),
        },
{
    let ghost orig = described@;
    let mut rest = described;
    let mut sorted: Vec<DatasetDescriptor> = Vec::new();
    let mut fault: Option<String> = None;
    let ghost mut acc: Seq<DatasetDescriptor> = Seq::empty();
    let ghost mut i: int = 0;
    while rest.len() > 0 && fault.is_none()
        invariant
            0 <= i <= orig.len(),
            rest@ == orig.subrange(i, orig.len() as int),
            fault is None ==> gathered(orig.subrange(0, i)) == Ok::<Seq<DatasetDescriptor>, Seq<char>>(acc),
            fault matches Some(m) ==> gathered(orig) == Err::<Seq<DatasetDescriptor>, Seq<char>>(m@),
            names_ascending(sorted@),
            sorted@.to_multiset() == acc.to_multiset(),
        decreases rest@.len(),
    {
        let (adapter, answer) = rest.remove(0);
        proof {
            assert(orig.subrange(0, i + 1).drop_last() =~= orig.subrange(0, i));
            assert(orig[i] == (adapter, answer));
            assert(rest@ =~= orig.subrange(i + 1, orig.len() as int));
        }
        match answer {
            Err(e) => {
                proof {
                    assert(gathered(orig.subrange(0, i + 1)) == Err::<Seq<DatasetDescriptor>, Seq<char>>(e@));
                    lemma_gathered_stops(orig, i + 1);
                }
                fault = Some(e);
            },
            Ok(ds) => {
                let ghost all_ds = ds@;
                let ghost acc0 = acc;
                let mut ds = ds;
                let ghost mut j: int = 0;
                while ds.len() > 0 && fault.is_none()
                    invariant
                        0 <= i < orig.len(),
                        orig[i].0 == adapter,
                        orig[i].1 matches Ok(x) && x@ == all_ds,
                        gathered(orig.subrange(0, i)) == Ok::<Seq<DatasetDescriptor>, Seq<char>>(acc0),
                        orig.subrange(0, i + 1).drop_last() == orig.subrange(0, i),
                        0 <= j <= all_ds.len(),
                        ds@ == all_ds.subrange(j, all_ds.len() as int),
                        fault is None ==> add_all(adapter@, all_ds.subrange(0, j), acc0) == Ok::<
                            Seq<DatasetDescriptor>,
                            Seq<char>,
                        >(acc),
                        fault matches Some(m) ==> gathered(orig) == Err::<Seq<DatasetDescriptor>, Seq<char>>(m@),
                        names_ascending(sorted@),
                        sorted@.to_multiset() == acc.to_multiset(),
                    decreases ds@.len(),
                {
                    let d = ds.remove(0);
                    proof {
                        assert(all_ds.subrange(0, j + 1).drop_last() =~= all_ds.subrange(0, j));
                        assert(all_ds[j] == d);
                        assert(ds@ =~= all_ds.subrange(j + 1, all_ds.len() as int));
                        lemma_same_names(sorted@, acc, d.name@);
                    }
                    match check_descriptor(adapter.as_str(), &d, &sorted) {
                        Some(m) => {
                            proof {
                                assert(descriptor_error(adapter@, d, sorted@) == descriptor_error(adapter@, d, acc));
                                // the fault stops this adapter and every later one
                                assert(add_all(adapter@, all_ds.subrange(0, j + 1), acc0) is Err);
                                lemma_add_all_stops(adapter@, all_ds, acc0, j + 1);
                                assert(all_ds.subrange(0, all_ds.len() as int) =~= all_ds);
                                lemma_gathered_stops(orig, i + 1);
                            }
                            fault = Some(m);
                        },
                        None => {
                            proof {
                                assert(descriptor_error(adapter@, d, sorted@) == descriptor_error(adapter@, d, acc));
                            }
                            let ghost dg = d;
                            insert_by_name(&mut sorted, d);
                            proof {
                                vstd::seq_lib::to_multiset_build(acc, dg);
                                acc = acc.push(dg);
                            }
                        },
                    }
                    proof {
                        j = j + 1;
                    }
                }
                proof {
                    if fault is None {
                        assert(all_ds.subrange(0, j) =~= all_ds);
                    }
                }
            },
        }
        proof {
            i = i + 1;
        }
    }
    match fault {
        Some(m) => Err(m),
        None => {
            proof {
                assert(orig.subrange(0, i) =~= orig);
            }
            Ok(sorted)
        },
    }
}

/// Every entry of every dataset, dataset by dataset.
pub open spec fn all_entries(ds: Seq<DatasetDescriptor>) -> Seq<CatalogEntry>
    decreases ds.len(),
{
    if ds.len() == 0 {
        Seq::empty()
    } else {
        all_entries(ds.drop_last()) + ds.last().entries@
    }
}

/// Entry `a` at position `i` is listed before entry `b` at position `j`: by
/// dataset, then display name, then id, then position.
pub open spec fn entry_before(a: CatalogEntry, i: int, b: CatalogEntry, j: int) -> bool {
    seq_lt(a.dataset@, b.dataset@) || (a.dataset@ == b.dataset@ && (seq_lt(a.label@, b.label@) || (a.label@
        == b.label@ && (seq_lt(a.id@, b.id@) || (a.id@ == b.id@ && i < j)))))
}

/// `order` lists every position of `es` once, in catalog order.
pub open spec fn is_catalog_order(es: Seq<CatalogEntry>, order: Seq<usize>) -> bool {
    &&& order.len() == es.len()
    &&& forall|k: int| 0 <= k < order.len() ==> order[k] < es.len()
    &&& forall|j: usize| j < es.len() ==> #[trigger] order.contains(j)
    &&& forall|a: int, b: int|
        #![trigger order[a], order[b]]
        0 <= a < b < order.len() ==> entry_before(es[order[a] as int], order[a] as int, es[order[b] as int], order[b] as int)
}

/// `c` is a copy of `e`.
pub open spec fn copies_entry(c: CatalogEntry, e: CatalogEntry) -> bool {
    &&& c.dataset == e.dataset
    &&& c.id == e.id
    &&& c.label == e.label
    &&& c.detail == e.detail
    &&& c.dependencies@ == e.dependencies@
    &&& c.note == e.note
}

/// Display names of the device-local datasets, in order.
pub open spec fn device_local_labels(ds: Seq<DatasetDescriptor>) -> Seq<Seq<char>>
    decreases ds.len(),
{
    if ds.len() == 0 {
        Seq::empty()
    } else if ds.last().policy == TransportPolicy::DeviceLocal {
        device_local_labels(ds.drop_last()).push(ds.last().label@)
    } else {
        device_local_labels(ds.drop_last())
    }
}

/// The parts joined by `sep`.
pub open spec fn joined(parts: Seq<Seq<char>>, sep: Seq<char>) -> Seq<char>
    decreases parts.len(),
{
    if parts.len() == 0 {
        Seq::empty()
    } else if parts.len() == 1 {
        parts[0]
    } else {
        joined(parts.drop_last(), sep) + sep + parts.last()
    }
}

/// Some dataset can be ticked.
pub open spec fn any_selectable(ds: Seq<DatasetDescriptor>) -> bool {
    exists|k: int| 0 <= k < ds.len() && (#[trigger] ds[k]).selectable
}

/// The warning naming the kinds that stay on this device.
pub open spec fn device_local_warning(labels: Seq<Seq<char>>) -> Seq<char> {
    "以下类别属于本机事实，不随包搬移："@ + joined(labels, "、"@)
}

/// The warning that nothing can be ticked.
pub open spec fn nothing_selectable_warning() -> Seq<char> {
    "当前空间没有可勾选的记录，无法导出数据包"@
}

/// The structural warnings of a catalog.
pub open spec fn catalog_warnings(ds: Seq<DatasetDescriptor>) -> Seq<Seq<char>> {
    let labels = device_local_labels(ds);
    let first = if labels.len() > 0 {
        seq![device_local_warning(labels)]
    } else {
        Seq::<Seq<char>>::empty()
    };
    if any_selectable(ds) {
        first
    } else {
        first.push(nothing_selectable_warning())
    }
}

/// Field-by-field copy of dependency edges.
fn copy_edges(v: &Vec<DependencyEdge>) -> (r: Vec<DependencyEdge>)
    ensures
        r@ == v@,
{
    let mut r: Vec<DependencyEdge> = Vec::new();
    let mut i: usize = 0;
    while i < v.len()
        invariant
            i <= v@.len(),
            r@ == v@.subrange(0, i as int),
        decreases v@.len() - i,
    {
        let e = &v[i];
        r.push(DependencyEdge { kind: e.kind.clone(), from_id: e.from_id.clone(), to_id: e.to_id.clone() });
        proof {
            assert(v@.subrange(0, i + 1) =~= v@.subrange(0, i as int).push(v@[i as int]));
        }
        i = i + 1;
    }
    assert(v@.subrange(0, v@.len() as int) =~= v@);
    r
}

/// Field-by-field copy of an entry.
fn copy_entry(e: &CatalogEntry) -> (c: CatalogEntry)
    ensures
        copies_entry(c, *e),
{
    CatalogEntry {
        dataset: e.dataset.clone(),
        id: e.id.clone(),
        label: e.label.clone(),
        detail: e.detail.clone(),
        dependencies: copy_edges(&e.dependencies),
        note: match &e.note {
            Some(n) => Some(n.clone()),
            None => None,
        },
    }
}

/// Copies of every entry, dataset by dataset.
fn flatten_entries(ds: &Vec<DatasetDescriptor>) -> (r: Vec<CatalogEntry>)
    ensures
        r@.len() == all_entries(ds@).len(),
        forall|k: int| 0 <= k < r@.len() ==> copies_entry(#[trigger] r@[k], all_entries(ds@)[k]),
{
    let mut r: Vec<CatalogEntry> = Vec::new();
    let mut i: usize = 0;
    while i < ds.len()
        invariant
            i <= ds@.len(),
            r@.len() == all_entries(ds@.subrange(0, i as int)).len(),
            forall|k: int|
                0 <= k < r@.len() ==> copies_entry(#[trigger] r@[k], all_entries(ds@.subrange(0, i as int))[k]),
        decreases ds@.len() - i,
    {
        let ghost pre = all_entries(ds@.subrange(0, i as int));
        proof {
            assert(ds@.subrange(0, i + 1).drop_last() =~= ds@.subrange(0, i as int));
        }
        let es = &ds[i].entries;
        let mut j: usize = 0;
        while j < es.len()
            invariant
                i < ds@.len(),
                es == ds@[i as int].entries,
                j <= es@.len(),
                r@.len() == pre.len() + j,
                forall|k: int| 0 <= k < pre.len() ==> copies_entry(#[trigger] r@[k], pre[k]),
                forall|k: int| pre.len() <= k < r@.len() ==> copies_entry(#[trigger] r@[k], es@[k - pre.len()]),
            decreases es@.len() - j,
        {
            r.push(copy_entry(&es[j]));
            j = j + 1;
        }
        proof {
            let post = all_entries(ds@.subrange(0, i + 1));
            assert(post =~= pre + es@);
            assert forall|k: int| 0 <= k < r@.len() implies copies_entry(#[trigger] r@[k], post[k]) by {
                if k < pre.len() {
                    assert(post[k] == pre[k]);
                } else {
                    assert(post[k] == es@[k - pre.len()]);
                }
            }
        }
        i = i + 1;
    }
    assert(ds@.subrange(0, ds@.len() as int) =~= ds@);
    r
}

/// The positions of `es` in catalog order: a stable sort by id, then a stable
/// sort of that by (dataset, display name).
fn catalog_order(es: &Vec<CatalogEntry>) -> (order: Vec<usize>)
    ensures
        is_catalog_order(es@, order@),
{
    let n = es.len();
    let mut by_id: Vec<(String, String)> = Vec::new();
    let mut i: usize = 0;
    while i < n
        invariant
            n == es@.len(),
            i <= n,
            by_id@.len() == i,
            forall|k: int| 0 <= k < i ==> #[trigger] key_views(by_id@)[k] == (es@[k].id@, Seq::<char>::empty()),
        decreases n - i,
    {
        let ghost old_keys = by_id@;
        let empty = String::new();
        proof {
            assert(empty@ =~= Seq::<char>::empty());
        }
        by_id.push((es[i].id.clone(), empty));
        proof {
            assert forall|k: int| 0 <= k < i + 1 implies #[trigger] key_views(by_id@)[k] == (
                es@[k].id@,
                Seq::<char>::empty(),
            ) by {
                assert(key_views(by_id@)[k] == (by_id@[k].0@, by_id@[k].1@));
                if k < i {
                    assert(by_id@[k] == old_keys[k]);
                    assert(key_views(old_keys)[k] == (old_keys[k].0@, old_keys[k].1@));
                }
            }
        }
        i = i + 1;
    }
    let first = stable_order(&by_id);
    let ghost k1 = key_views(by_id@);
    let mut by_name: Vec<(String, String)> = Vec::new();
    let mut j: usize = 0;
    while j < n
        invariant
            n == es@.len(),
            first@.len() == n,
            forall|q: int| 0 <= q < n ==> first@[q] < n,
            j <= n,
            by_name@.len() == j,
            forall|k: int|
                0 <= k < j ==> #[trigger] key_views(by_name@)[k] == (
                    es@[first@[k] as int].dataset@,
                    es@[first@[k] as int].label@,
                ),
        decreases n - j,
    {
        let e = &es[first[j]];
        let ghost old_keys = by_name@;
        by_name.push((e.dataset.clone(), e.label.clone()));
        proof {
            assert forall|k: int| 0 <= k < j + 1 implies #[trigger] key_views(by_name@)[k] == (
                es@[first@[k] as int].dataset@,
                es@[first@[k] as int].label@,
            ) by {
                assert(key_views(by_name@)[k] == (by_name@[k].0@, by_name@[k].1@));
                if k < j {
                    assert(by_name@[k] == old_keys[k]);
                    assert(key_views(old_keys)[k] == (old_keys[k].0@, old_keys[k].1@));
                }
            }
        }
        j = j + 1;
    }
    let second = stable_order(&by_name);
    let ghost k2 = key_views(by_name@);
    let mut order: Vec<usize> = Vec::new();
    let mut k: usize = 0;
    while k < n
        invariant
            n == es@.len(),
            first@.len() == n,
            second@.len() == n,
            forall|q: int| 0 <= q < n ==> first@[q] < n,
            forall|q: int| 0 <= q < n ==> second@[q] < n,
            k <= n,
            order@.len() == k,
            forall|q: int| 0 <= q < k ==> #[trigger] order@[q] == first@[second@[q] as int],
        decreases n - k,
    {
        order.push(first[second[k]]);
        k = k + 1;
    }
    proof {
        assert(is_stable_order(k1, first@));
        assert(is_stable_order(k2, second@));
        assert forall|a: int, b: int|
            #![trigger order@[a], order@[b]]
            0 <= a < b < order@.len() implies entry_before(
                es@[order@[a] as int],
                order@[a] as int,
                es@[order@[b] as int],
                order@[b] as int,
            ) by {
            let qa = second@[a] as int;
            let qb = second@[b] as int;
            assert(keyed_lt(key_at(k2, qa), qa, key_at(k2, qb), qb));
            assert(key_at(k2, qa) == (es@[order@[a] as int].dataset@, es@[order@[a] as int].label@));
            assert(key_at(k2, qb) == (es@[order@[b] as int].dataset@, es@[order@[b] as int].label@));
            if qa < qb {
                assert(first@[qa] == first@[qa] && first@[qb] == first@[qb]);
                assert(keyed_lt(key_at(k1, first@[qa] as int), first@[qa] as int, key_at(k1, first@[qb] as int), first@[qb] as int));
                lemma_seq_lt_irreflexive(Seq::<char>::empty());
            }
        }
        assert forall|j: usize| j < es@.len() implies #[trigger] order@.contains(j) by {
            assert(first@.contains(j));
            let q = choose|q: int| 0 <= q < first@.len() && first@[q] == j;
            assert(second@.contains(q as usize));
            let p = choose|p: int| 0 <= p < second@.len() && second@[p] == q as usize;
            assert(order@[p] == j);
        }
    }
    order
}

/// Whether some dataset can be ticked.
fn has_selectable(ds: &Vec<DatasetDescriptor>) -> (r: bool)
    ensures
        r == any_selectable(ds@),
{
    let mut i: usize = 0;
    while i < ds.len()
        invariant
            i <= ds@.len(),
            forall|k: int| 0 <= k < i ==> !(#[trigger] ds@[k]).selectable,
        decreases ds@.len() - i,
    {
        if ds[i].selectable {
            assert(ds@[i as int].selectable);
            return true;
        }
        i = i + 1;
    }
    false
}

/// The warning text naming the device-local kinds, if any.
fn device_local_note(ds: &Vec<DatasetDescriptor>) -> (r: Option<String>)
    ensures
        if device_local_labels(ds@).len() == 0 {
            r is None
        } else {
            r matches Some(w) && w@ == device_local_warning(device_local_labels(ds@))
        },
{
    let mut text = String::new();
    let mut count: usize = 0;
    let mut i: usize = 0;
    while i < ds.len()
        invariant
            i <= ds@.len(),
            count == device_local_labels(ds@.subrange(0, i as int)).len(),
            text@ == joined(device_local_labels(ds@.subrange(0, i as int)), "、"@),
        decreases ds@.len() - i,
    {
        proof {
            reveal_strlit("、");
            assert(ds@.subrange(0, i + 1).drop_last() =~= ds@.subrange(0, i as int));
            lemma_labels_bounded(ds@.subrange(0, i as int));
        }
        let device_local = match ds[i].policy {
            TransportPolicy::DeviceLocal => true,
            _ => false,
        };
        let ghost labels = device_local_labels(ds@.subrange(0, i as int));
        if device_local {
            if count > 0 {
                text.append("、");
            }
            text.append(ds[i].label.as_str());
            count = count + 1;
            proof {
                let now = labels.push(ds@[i as int].label@);
                assert(device_local_labels(ds@.subrange(0, i + 1)) == now);
                assert(now.drop_last() =~= labels);
                if labels.len() == 0 {
                    assert(text@ =~= joined(now, "、"@));
                } else {
                    assert(text@ =~= joined(now, "、"@));
                }
            }
        }
        i = i + 1;
    }
    assert(ds@.subrange(0, ds@.len() as int) =~= ds@);
    if count == 0 {
        None
    } else {
        let w = concat2("以下类别属于本机事实，不随包搬移：", text.as_str());
        proof {
            reveal_strlit("以下类别属于本机事实，不随包搬移：");
        }
        Some(w)
    }
}

/// There are no more device-local labels than datasets.
proof fn lemma_labels_bounded(ds: Seq<DatasetDescriptor>)
    ensures
        device_local_labels(ds).len() <= ds.len(),
    decreases ds.len(),
{
    if ds.len() > 0 {
        lemma_labels_bounded(ds.drop_last());
    }
}

/// The export catalog of a space from the gathered descriptors: a summary of
/// each dataset, every entry in (dataset, display name, id) order, the
/// default ticks and the structural warnings.
pub fn build_catalog(descriptors: &Vec<DatasetDescriptor>, source_space_id: String, source_space_name: String) -> (r:
    ExportCatalog)
    ensures
        r.source_space_id == source_space_id,
        r.source_space_name == source_space_name,
        r.datasets@.len() == descriptors@.len(),
        forall|k: int| 0 <= k < r.datasets@.len() ==> summarizes(#[trigger] r.datasets@[k], descriptors@[k]),
        exists|order: Seq<usize>|
            is_catalog_order(all_entries(descriptors@), order) && r.entries@.len() == order.len() && forall|k: int|
                0 <= k < order.len() ==> copies_entry(#[trigger] r.entries@[k], all_entries(descriptors@)[order[k] as int]),
        r.defaults.entries@.len() == 0,
        r.defaults.include_credentials,
        views(r.defaults.datasets@) == default_names(descriptors@),
        views(r.warnings@) == catalog_warnings(descriptors@),
{
    let mut datasets: Vec<DatasetSummary> = Vec::new();
    let mut i: usize = 0;
    while i < descriptors.len()
        invariant
            i <= descriptors@.len(),
            datasets@.len() == i,
            forall|k: int| 0 <= k < i ==> summarizes(#[trigger] datasets@[k], descriptors@[k]),
        decreases descriptors@.len() - i,
    {
        datasets.push(descriptors[i].summary());
        i = i + 1;
    }
    let flat = flatten_entries(descriptors);
    let order = catalog_order(&flat);
    let mut entries: Vec<CatalogEntry> = Vec::new();
    let mut k: usize = 0;
    while k < order.len()
        invariant
            flat@.len() == all_entries(descriptors@).len(),
            forall|q: int| 0 <= q < flat@.len() ==> copies_entry(#[trigger] flat@[q], all_entries(descriptors@)[q]),
            is_catalog_order(flat@, order@),
            k <= order@.len(),
            entries@.len() == k,
            forall|q: int| 0 <= q < k ==> copies_entry(#[trigger] entries@[q], flat@[order@[q] as int]),
        decreases order@.len() - k,
    {
        entries.push(copy_entry(&flat[order[k]]));
        k = k + 1;
    }
    proof {
        let all = all_entries(descriptors@);
        assert forall|a: int, b: int|
            #![trigger order@[a], order@[b]]
            0 <= a < b < order@.len() implies entry_before(
                all[order@[a] as int],
                order@[a] as int,
                all[order@[b] as int],
                order@[b] as int,
            ) by {
            assert(entry_before(flat@[order@[a] as int], order@[a] as int, flat@[order@[b] as int], order@[b] as int));
            assert(copies_entry(flat@[order@[a] as int], all[order@[a] as int]));
            assert(copies_entry(flat@[order@[b] as int], all[order@[b] as int]));
        }
        assert(is_catalog_order(all, order@));
        assert forall|q: int| 0 <= q < order@.len() implies copies_entry(#[trigger] entries@[q], all[order@[q] as int]) by {
            assert(copies_entry(entries@[q], flat@[order@[q] as int]));
            assert(copies_entry(flat@[order@[q] as int], all[order@[q] as int]));
        }
    }
    let defaults = default_selection(descriptors);
    let mut warnings: Vec<String> = Vec::new();
    match device_local_note(descriptors) {
        Some(w) => warnings.push(w),
        None => {},
    }
    if !has_selectable(descriptors) {
        let w = owned("当前空间没有可勾选的记录，无法导出数据包");
        proof {
            reveal_strlit("当前空间没有可勾选的记录，无法导出数据包");
        }
        warnings.push(w);
    }
    proof {
        assert(views(warnings@) =~= catalog_warnings(descriptors@));
    }
    ExportCatalog { source_space_id, source_space_name, datasets, entries, defaults, warnings }
}

/// Once accepting a prefix fails, accepting any longer prefix fails the same way.
proof fn lemma_add_all_stops(adapter: Seq<char>, ds: Seq<DatasetDescriptor>, acc: Seq<DatasetDescriptor>, k: int)
    requires
        0 <= k <= ds.len(),
        add_all(adapter, ds.subrange(0, k), acc) is Err,
    ensures
        add_all(adapter, ds, acc) == add_all(adapter, ds.subrange(0, k), acc),
    decreases ds.len() - k,
{
    if k < ds.len() {
        assert(ds.subrange(0, k + 1).drop_last() =~= ds.subrange(0, k));
        lemma_add_all_stops(adapter, ds, acc, k + 1);
    } else {
        assert(ds.subrange(0, k) =~= ds);
    }
}

/// Once gathering a prefix fails, gathering everything fails the same way.
proof fn lemma_gathered_stops(described: Seq<Described>, k: int)
    requires
        0 <= k <= described.len(),
        gathered(described.subrange(0, k)) is Err,
    ensures
        gathered(described) == gathered(described.subrange(0, k)),
    decreases described.len() - k,
{
    if k < described.len() {
        assert(described.subrange(0, k + 1).drop_last() =~= described.subrange(0, k));
        lemma_gathered_stops(described, k + 1);
    } else {
        assert(described.subrange(0, k) =~= described);
    }
}

} // verus!
