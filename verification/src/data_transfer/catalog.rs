//! Export selection closure: what the user ticked plus everything it pulls
//! in (credentials, groups, tunnels, ...), computed once here.
//!
//! Ids the catalog does not hold are refused (a stale list is an error,
//! never a silently smaller package), and an empty selection is refused.

use vstd::prelude::*;

use crate::data_transfer::types::{
    CatalogEntry, DatasetDescriptor, DatasetPull, ExportSelection, ResolvedSelection, SelectionEntry,
};
use crate::text::{owned, sort_strings, sorted_seqs, str_eq, views};

verus! {

/// A (dataset, record id) pair.
pub type Pair = (Seq<char>, Seq<char>);

/// The descriptor a name denotes: the last one of that name.
pub open spec fn lookup(ds: Seq<DatasetDescriptor>, name: Seq<char>) -> Option<int>
    decreases ds.len(),
{
    if ds.len() == 0 {
        None
    } else if ds.last().name@ == name {
        Some(ds.len() - 1)
    } else {
        lookup(ds.drop_last(), name)
    }
}

/// What `lookup` finds is a descriptor of that name, and it is the last one.
pub proof fn lemma_lookup(ds: Seq<DatasetDescriptor>, name: Seq<char>)
    ensures
        lookup(ds, name) matches Some(i) ==> 0 <= i < ds.len() && ds[i].name@ == name && forall|j: int|
            i < j < ds.len() ==> #[trigger] ds[j].name@ != name,
        lookup(ds, name) is None ==> forall|j: int| 0 <= j < ds.len() ==> #[trigger] ds[j].name@ != name,
    decreases ds.len(),
{
    if ds.len() > 0 {
        lemma_lookup(ds.drop_last(), name);
        assert forall|j: int| 0 <= j < ds.len() - 1 implies ds.drop_last()[j] == ds[j] by {}
    }
}

/// First entry with id `id`, searching from position `i`.
pub open spec fn first_entry_from(es: Seq<CatalogEntry>, id: Seq<char>, i: int) -> Option<int>
    decreases es.len() - i,
{
    if i < 0 || i >= es.len() {
        None
    } else if es[i].id@ == id {
        Some(i)
    } else {
        first_entry_from(es, id, i + 1)
    }
}

/// First pull of kind `kind`, searching from position `i`.
pub open spec fn first_pull_from(ps: Seq<DatasetPull>, kind: Seq<char>, i: int) -> Option<int>
    decreases ps.len() - i,
{
    if i < 0 || i >= ps.len() {
        None
    } else if ps[i].kind@ == kind {
        Some(i)
    } else {
        first_pull_from(ps, kind, i + 1)
    }
}

/// The dataset that edge `k` of the entry behind pair `p` pulls into, if
/// the edge's kind is followed by the pair's dataset (first pull of that kind).
pub open spec fn pull_dataset(ds: Seq<DatasetDescriptor>, p: Pair, k: int) -> Option<Seq<char>> {
    match lookup(ds, p.0) {
        None => None,
        Some(di) => match first_entry_from(ds[di].entries@, p.1, 0) {
            None => None,
            Some(ei) => {
                let deps = ds[di].entries@[ei].dependencies@;
                if 0 <= k < deps.len() {
                    match first_pull_from(ds[di].pulls@, deps[k].kind@, 0) {
                        None => None,
                        Some(pi) => Some(ds[di].pulls@[pi].dataset@),
                    }
                } else {
                    None
                }
            },
        },
    }
}

/// The referred id of edge `k` of the entry behind pair `p`.
pub open spec fn edge_to(ds: Seq<DatasetDescriptor>, p: Pair, k: int) -> Seq<char> {
    let di = lookup(ds, p.0).unwrap();
    let ei = first_entry_from(ds[di].entries@, p.1, 0).unwrap();
    ds[di].entries@[ei].dependencies@[k].to_id@
}

/// The pair edge `k` of `p` pulls in, when its target dataset exists.
pub open spec fn edge_target(ds: Seq<DatasetDescriptor>, p: Pair, k: int) -> Option<Pair> {
    match pull_dataset(ds, p, k) {
        Some(t) => if lookup(ds, t) is Some {
            Some((t, edge_to(ds, p, k)))
        } else {
            None
        },
        None => None,
    }
}

/// Edge `k` of `p` pulls into a dataset that does not exist.
pub open spec fn edge_bad(ds: Seq<DatasetDescriptor>, p: Pair, k: int) -> bool {
    pull_dataset(ds, p, k) matches Some(t) && lookup(ds, t) is None
}

/// Every pair pulled in by a pair of `s` is in `s`.
pub open spec fn closed(ds: Seq<DatasetDescriptor>, s: Set<Pair>) -> bool {
    forall|p: Pair, k: int| s.contains(p) && (#[trigger] edge_target(ds, p, k)) is Some ==> s.contains(
        edge_target(ds, p, k).unwrap(),
    )
}

/// `p` is in every closed set that holds `init`.
pub open spec fn reachable(ds: Seq<DatasetDescriptor>, init: Set<Pair>, p: Pair) -> bool {
    forall|x: Set<Pair>| init.subset_of(x) && closed(ds, x) ==> #[trigger] x.contains(p)
}

/// `c` is the least closed set that holds `init`.
pub open spec fn least_closure(ds: Seq<DatasetDescriptor>, init: Set<Pair>, c: Set<Pair>) -> bool {
    &&& init.subset_of(c)
    &&& closed(ds, c)
    &&& forall|p: Pair| c.contains(p) ==> reachable(ds, init, p)
}

/// `（note）` when a note is given.
pub open spec fn note_suffix(note: Option<String>) -> Seq<char> {
    match note {
        Some(n) => "（"@ + n@ + "）"@,
        None => Seq::empty(),
    }
}

/// The refusal of a dataset name ticked as a whole or entry by entry.
pub open spec fn name_error(ds: Seq<DatasetDescriptor>, name: Seq<char>) -> Option<Seq<char>> {
    match lookup(ds, name) {
        None => Some("未知数据集："@ + name),
        Some(di) => if !ds[di].selectable {
            Some("数据集 "@ + name + " 不能单独勾选"@ + note_suffix(ds[di].note))
        } else {
            None
        },
    }
}

/// The first refusal among whole-dataset names, from position `i`.
pub open spec fn datasets_error(ds: Seq<DatasetDescriptor>, names: Seq<String>, i: int) -> Option<Seq<char>>
    decreases names.len() - i,
{
    if i < 0 || i >= names.len() {
        None
    } else {
        match name_error(ds, names[i]@) {
            Some(m) => Some(m),
            None => datasets_error(ds, names, i + 1),
        }
    }
}

/// Message of a ticked id the catalog does not hold.
pub open spec fn stale_id_message(dataset: Seq<char>, id: Seq<char>) -> Seq<char> {
    "数据集 "@ + dataset + " 中不存在记录 "@ + id + "（列表可能已过期，请刷新后重选）"@
}

/// The first ticked id, from position `j`, the descriptor does not hold.
pub open spec fn ids_error(d: DatasetDescriptor, ids: Seq<String>, j: int) -> Option<Seq<char>>
    decreases ids.len() - j,
{
    if j < 0 || j >= ids.len() {
        None
    } else if first_entry_from(d.entries@, ids[j]@, 0) is None {
        Some(stale_id_message(d.name@, ids[j]@))
    } else {
        ids_error(d, ids, j + 1)
    }
}

/// The first refusal among entry-by-entry ticks, from position `i`.
pub open spec fn entries_error(ds: Seq<DatasetDescriptor>, picks: Seq<SelectionEntry>, i: int) -> Option<Seq<char>>
    decreases picks.len() - i,
{
    if i < 0 || i >= picks.len() {
        None
    } else {
        match name_error(ds, picks[i].dataset@) {
            Some(m) => Some(m),
            None => match ids_error(ds[lookup(ds, picks[i].dataset@).unwrap()], picks[i].ids@, 0) {
                Some(m) => Some(m),
                None => entries_error(ds, picks, i + 1),
            },
        }
    }
}

/// Dataset names the selection ticks (as a whole or entry by entry).
pub open spec fn ticked_names(sel: ExportSelection) -> Set<Seq<char>> {
    Set::new(
        |n: Seq<char>|
            (exists|i: int| 0 <= i < sel.datasets@.len() && #[trigger] sel.datasets@[i]@ == n) || (exists|i: int|
                0 <= i < sel.entries@.len() && #[trigger] sel.entries@[i].dataset@ == n),
    )
}

/// The (dataset, id) pairs the selection ticks.
pub open spec fn ticked_pairs(sel: ExportSelection) -> Set<Pair> {
    Set::new(
        |p: Pair|
            exists|i: int, j: int|
                0 <= i < sel.entries@.len() && 0 <= j < sel.entries@[i].ids@.len() && #[trigger] sel.entries@[i].dataset@
                    == p.0 && #[trigger] sel.entries@[i].ids@[j]@ == p.1,
    )
}

/// Message of a follow target that does not exist.
pub open spec fn missing_target_message(dataset: Seq<char>, target: Seq<char>) -> Seq<char> {
    "数据集 "@ + dataset + " 声明的跟随目标 "@ + target + " 不存在"@
}

/// Index of the descriptor a name denotes (the last one of that name).
fn find_descriptor(ds: &Vec<DatasetDescriptor>, name: &str) -> (r: Option<usize>)
    ensures
        match r {
            Some(i) => lookup(ds@, name@) == Some(i as int),
            None => lookup(ds@, name@) is None,
        },
{
    let mut i: usize = ds.len();
    assert(ds@.subrange(0, ds@.len() as int) =~= ds@);
    while i > 0
        invariant
            i <= ds@.len(),
            lookup(ds@, name@) == lookup(ds@.subrange(0, i as int), name@),
        decreases i,
    {
        proof {
            let sub = ds@.subrange(0, i as int);
            assert(sub.drop_last() =~= ds@.subrange(0, i - 1));
            assert(sub.last() == ds@[i - 1]);
        }
        if str_eq(ds[i - 1].name.as_str(), name) {
            return Some(i - 1);
        }
        i = i - 1;
    }
    proof {
        assert(ds@.subrange(0, 0).len() == 0);
    }
    None
}

/// Index of the first entry with id `id`.
fn find_entry(es: &Vec<CatalogEntry>, id: &str) -> (r: Option<usize>)
    ensures
        match r {
            Some(i) => first_entry_from(es@, id@, 0) == Some(i as int),
            None => first_entry_from(es@, id@, 0) is None,
        },
{
    let mut i: usize = 0;
    while i < es.len()
        invariant
            i <= es@.len(),
            first_entry_from(es@, id@, 0) == first_entry_from(es@, id@, i as int),
        decreases es@.len() - i,
    {
        if str_eq(es[i].id.as_str(), id) {
            return Some(i);
        }
        i = i + 1;
    }
    None
}

/// Index of the first pull of kind `kind`.
fn find_pull(ps: &Vec<DatasetPull>, kind: &str) -> (r: Option<usize>)
    ensures
        match r {
            Some(i) => first_pull_from(ps@, kind@, 0) == Some(i as int),
            None => first_pull_from(ps@, kind@, 0) is None,
        },
{
    let mut i: usize = 0;
    while i < ps.len()
        invariant
            i <= ps@.len(),
            first_pull_from(ps@, kind@, 0) == first_pull_from(ps@, kind@, i as int),
        decreases ps@.len() - i,
    {
        if str_eq(ps[i].kind.as_str(), kind) {
            return Some(i);
        }
        i = i + 1;
    }
    None
}

/// Refusal of a ticked dataset name, if any.
fn check_name(ds: &Vec<DatasetDescriptor>, name: &str) -> (r: Result<usize, String>)
    ensures
        match name_error(ds@, name@) {
            Some(m) => r is Err && r->Err_0@ == m,
            None => r is Ok && lookup(ds@, name@) == Some(r->Ok_0 as int),
        },
{
    proof {
        lemma_lookup(ds@, name@);
    }
    match find_descriptor(ds, name) {
        None => {
            let mut m = owned("未知数据集：");
            m.append(name);
            Err(m)
        },
        Some(di) => {
            if !ds[di].selectable {
                let mut m = owned("数据集 ");
                m.append(name);
                m.append(" 不能单独勾选");
                match &ds[di].note {
                    Some(note) => {
                        m.append("（");
                        m.append(note.as_str());
                        m.append("）");
                    },
                    None => {},
                }
                return Err(m);
            }
            Ok(di)
        },
    }
}

/// Whether `name` is among `keys`.
fn has_key(keys: &Vec<String>, name: &str) -> (r: bool)
    ensures
        r == views(keys@).contains(name@),
{
    let mut i: usize = 0;
    while i < keys.len()
        invariant
            i <= keys@.len(),
            forall|k: int| 0 <= k < i ==> views(keys@)[k] != name@,
        decreases keys@.len() - i,
    {
        if str_eq(keys[i].as_str(), name) {
            assert(views(keys@)[i as int] == name@);
            return true;
        }
        i = i + 1;
    }
    false
}

/// Views of pairs of strings.
pub open spec fn pair_views(s: Seq<(String, String)>) -> Seq<Pair> {
    s.map_values(|p: (String, String)| (p.0@, p.1@))
}

/// Whether the pair is among `pairs`.
fn has_pair(pairs: &Vec<(String, String)>, name: &str, id: &str) -> (r: bool)
    ensures
        r == pair_views(pairs@).contains((name@, id@)),
{
    let mut i: usize = 0;
    while i < pairs.len()
        invariant
            i <= pairs@.len(),
            forall|k: int| 0 <= k < i ==> pair_views(pairs@)[k] != (name@, id@),
        decreases pairs@.len() - i,
    {
        if str_eq(pairs[i].0.as_str(), name) && str_eq(pairs[i].1.as_str(), id) {
            assert(pair_views(pairs@)[i as int] == (name@, id@));
            return true;
        }
        i = i + 1;
    }
    false
}

/// What `first_entry_from` finds is an entry with that id at or after `i`.
pub proof fn lemma_first_entry(es: Seq<CatalogEntry>, id: Seq<char>, i: int)
    ensures
        first_entry_from(es, id, i) matches Some(k) ==> i <= k < es.len() && 0 <= k && es[k].id@ == id,
    decreases es.len() - i,
{
    if 0 <= i < es.len() && es[i].id@ != id {
        lemma_first_entry(es, id, i + 1);
    }
}

/// What `first_pull_from` finds is a pull of that kind at or after `i`.
pub proof fn lemma_first_pull(ps: Seq<DatasetPull>, kind: Seq<char>, i: int)
    ensures
        first_pull_from(ps, kind, i) matches Some(k) ==> i <= k < ps.len() && 0 <= k && ps[k].kind@ == kind,
    decreases ps.len() - i,
{
    if 0 <= i < ps.len() && ps[i].kind@ != kind {
        lemma_first_pull(ps, kind, i + 1);
    }
}

/// Appends `name` to `keys` unless it is there already.
fn add_key(keys: &mut Vec<String>, name: &str)
    requires
        views(old(keys)@).no_duplicates(),
    ensures
        views(final(keys)@).no_duplicates(),
        views(final(keys)@).to_set() == views(old(keys)@).to_set().insert(name@),
{
    let ghost before = views(keys@);
    if !has_key(keys, name) {
        keys.push(owned(name));
        proof {
            assert(views(keys@) =~= before.push(name@));
            assert(views(keys@).to_set() =~= before.to_set().insert(name@)) by {
                assert forall|x: Seq<char>| views(keys@).to_set().contains(x) <==> before.to_set().insert(name@).contains(x) by {
                    if views(keys@).to_set().contains(x) {
                        let k = choose|k: int| 0 <= k < views(keys@).len() && views(keys@)[k] == x;
                        if k < before.len() {
                            assert(before[k] == x);
                        }
                    }
                    if before.to_set().contains(x) {
                        let k = choose|k: int| 0 <= k < before.len() && before[k] == x;
                        assert(views(keys@)[k] == x);
                    }
                    if x == name@ {
                        assert(views(keys@)[before.len() as int] == x);
                    }
                }
            }
        }
    } else {
        proof {
            assert(before.to_set().insert(name@) =~= before.to_set());
        }
    }
}

/// Appends the pair to `pairs` unless it is there already; says whether it was new.
fn add_pair(pairs: &mut Vec<(String, String)>, name: &str, id: &str) -> (added: bool)
    requires
        pair_views(old(pairs)@).no_duplicates(),
    ensures
        pair_views(final(pairs)@).no_duplicates(),
        added == !pair_views(old(pairs)@).contains((name@, id@)),
        added ==> pair_views(final(pairs)@) == pair_views(old(pairs)@).push((name@, id@)),
        !added ==> final(pairs)@ == old(pairs)@,
{
    let ghost before = pair_views(pairs@);
    if has_pair(pairs, name, id) {
        return false;
    }
    pairs.push((owned(name), owned(id)));
    assert(pair_views(pairs@) =~= before.push((name@, id@)));
    true
}

/// A sequence with no repeats, each of whose items appear in `c`, is no longer than `c`.
proof fn lemma_unique_within<A>(s: Seq<A>, c: Seq<A>)
    requires
        s.no_duplicates(),
        forall|i: int| 0 <= i < s.len() ==> c.contains(#[trigger] s[i]),
    ensures
        s.len() <= c.len(),
{
    s.unique_seq_to_set();
    c.lemma_cardinality_of_set();
    assert(s.to_set().subset_of(c.to_set())) by {
        assert forall|x: A| s.to_set().contains(x) implies c.to_set().contains(x) by {
            let i = choose|i: int| 0 <= i < s.len() && s[i] == x;
            assert(c.contains(s[i]));
        }
    }
    vstd::set_lib::lemma_len_subset(s.to_set(), c.to_set());
}

/// The names and pairs the selection ticks, after the checks in order:
/// whole datasets, then entry-by-entry datasets and their ids, then emptiness.
fn ticked(ds: &Vec<DatasetDescriptor>, sel: &ExportSelection) -> (r: Result<(Vec<String>, Vec<(String, String)>), String>)
    ensures
        match datasets_error(ds@, sel.datasets@, 0) {
            Some(m) => r is Err && r->Err_0@ == m,
            None => match entries_error(ds@, sel.entries@, 0) {
                Some(m) => r is Err && r->Err_0@ == m,
                None => if sel.datasets@.len() == 0 && sel.entries@.len() == 0 {
                    r is Err && r->Err_0@ == "没有选择任何可导出的数据"@
                } else {
                    r matches Ok((keys, pairs)) && views(keys@).no_duplicates() && views(keys@).to_set() == ticked_names(*sel)
                        && pair_views(pairs@).no_duplicates() && pair_views(pairs@).to_set() == ticked_pairs(*sel)
                },
            },
        },
{
    let mut keys: Vec<String> = Vec::new();
    let mut pairs: Vec<(String, String)> = Vec::new();
    let ghost names = sel.datasets@;
    let ghost picks = sel.entries@;
    let mut i: usize = 0;
    while i < sel.datasets.len()
        invariant
            i <= names.len(),
            names == sel.datasets@,
            datasets_error(ds@, names, 0) == datasets_error(ds@, names, i as int),
            views(keys@).no_duplicates(),
            views(keys@).to_set() == Set::new(|n: Seq<char>| exists|k: int| 0 <= k < i && #[trigger] names[k]@ == n),
        decreases names.len() - i,
    {
        match check_name(ds, sel.datasets[i].as_str()) {
            Err(m) => return Err(m),
            Ok(_) => {},
        }
        let ghost before = views(keys@).to_set();
        add_key(&mut keys, sel.datasets[i].as_str());
        proof {
            assert(views(keys@).to_set() =~= Set::new(|n: Seq<char>| exists|k: int| 0 <= k < i + 1 && #[trigger] names[k]@ == n)) by {
                assert forall|n: Seq<char>| (exists|k: int| 0 <= k < i + 1 && #[trigger] names[k]@ == n) implies before.insert(names[i as int]@).contains(n) by {
                    let k = choose|k: int| 0 <= k < i + 1 && #[trigger] names[k]@ == n;
                    if k < i {
                        assert(before.contains(n));
                    }
                }
            }
        }
        i = i + 1;
    }
    assert(datasets_error(ds@, names, i as int) is None);
    assert(pair_views(pairs@) =~= Seq::<Pair>::empty());
    let mut e: usize = 0;
    while e < sel.entries.len()
        invariant
            e <= picks.len(),
            names == sel.datasets@,
            picks == sel.entries@,
            datasets_error(ds@, names, 0) is None,
            entries_error(ds@, picks, 0) == entries_error(ds@, picks, e as int),
            views(keys@).no_duplicates(),
            views(keys@).to_set() == Set::new(
                |n: Seq<char>|
                    (exists|k: int| 0 <= k < names.len() && #[trigger] names[k]@ == n) || (exists|k: int|
                        0 <= k < e && #[trigger] picks[k].dataset@ == n),
            ),
            pair_views(pairs@).no_duplicates(),
            pair_views(pairs@).to_set() == Set::new(
                |p: Pair|
                    exists|k: int, j: int|
                        0 <= k < e && 0 <= j < picks[k].ids@.len() && #[trigger] picks[k].dataset@ == p.0
                            && #[trigger] picks[k].ids@[j]@ == p.1,
            ),
        decreases picks.len() - e,
    {
        let picked = &sel.entries[e];
        let di = match check_name(ds, picked.dataset.as_str()) {
            Err(m) => return Err(m),
            Ok(di) => di,
        };
        proof {
            lemma_lookup(ds@, picked.dataset@);
        }
        let ghost keys_before = views(keys@).to_set();
        add_key(&mut keys, picked.dataset.as_str());
        let ghost pairs_before = pair_views(pairs@).to_set();
        let mut j: usize = 0;
        while j < picked.ids.len()
            invariant
                j <= picked.ids@.len(),
                picked == sel.entries@[e as int],
                datasets_error(ds@, names, 0) is None,
                names == sel.datasets@,
                entries_error(ds@, picks, 0) == entries_error(ds@, picks, e as int),
                name_error(ds@, picked.dataset@) is None,
                e < picks.len(),
                picks == sel.entries@,
                di < ds@.len(),
                lookup(ds@, picked.dataset@) == Some(di as int),
                ids_error(ds@[di as int], picked.ids@, 0) == ids_error(ds@[di as int], picked.ids@, j as int),
                pair_views(pairs@).no_duplicates(),
                pair_views(pairs@).to_set() == pairs_before.union(
                    Set::new(|p: Pair| exists|q: int| 0 <= q < j && p == (picked.dataset@, #[trigger] picked.ids@[q]@)),
                ),
            decreases picked.ids@.len() - j,
        {
            let id = picked.ids[j].as_str();
            match find_entry(&ds[di].entries, id) {
                None => {
                    let mut m = owned("数据集 ");
                    m.append(ds[di].name.as_str());
                    m.append(" 中不存在记录 ");
                    m.append(id);
                    m.append("（列表可能已过期，请刷新后重选）");
                    proof {
                        lemma_lookup(ds@, picked.dataset@);
                    }
                    return Err(m);
                },
                Some(_) => {},
            }
            let ghost pv = pair_views(pairs@);
            let added = add_pair(&mut pairs, picked.dataset.as_str(), id);
            proof {
                assert(pair_views(pairs@).to_set() =~= pairs_before.union(
                    Set::new(|p: Pair| exists|q: int| 0 <= q < j + 1 && p == (picked.dataset@, #[trigger] picked.ids@[q]@)),
                )) by {
                    let target = pairs_before.union(
                        Set::new(|p: Pair| exists|q: int| 0 <= q < j + 1 && p == (picked.dataset@, #[trigger] picked.ids@[q]@)),
                    );
                    assert forall|p: Pair| pair_views(pairs@).to_set().contains(p) <==> target.contains(p) by {
                        if pair_views(pairs@).to_set().contains(p) {
                            let k = choose|k: int| 0 <= k < pair_views(pairs@).len() && pair_views(pairs@)[k] == p;
                            if k < pv.len() {
                                assert(pv[k] == p);
                                assert(pv.to_set().contains(p));
                            }
                        }
                        if target.contains(p) {
                            if pairs_before.contains(p) || (exists|q: int| 0 <= q < j && p == (picked.dataset@, #[trigger] picked.ids@[q]@)) {
                                assert(pv.to_set().contains(p));
                                let k = choose|k: int| 0 <= k < pv.len() && pv[k] == p;
                                if added {
                                    assert(pair_views(pairs@)[k] == p);
                                }
                            } else {
                                if !added {
                                    assert(pv.contains(p));
                                } else {
                                    assert(pair_views(pairs@)[pv.len() as int] == p);
                                }
                            }
                        }
                    }
                }
            }
            j = j + 1;
        }
        proof {
            assert(ids_error(ds@[di as int], picked.ids@, j as int) is None);
            let next = Set::new(
                |p: Pair|
                    exists|k: int, q: int|
                        0 <= k < e + 1 && 0 <= q < picks[k].ids@.len() && #[trigger] picks[k].dataset@ == p.0
                            && #[trigger] picks[k].ids@[q]@ == p.1,
            );
            assert(pair_views(pairs@).to_set() =~= next) by {
                assert forall|p: Pair| pair_views(pairs@).to_set().contains(p) <==> next.contains(p) by {
                    if next.contains(p) {
                        let (k, q) = choose|k: int, q: int|
                            0 <= k < e + 1 && 0 <= q < picks[k].ids@.len() && #[trigger] picks[k].dataset@ == p.0
                                && #[trigger] picks[k].ids@[q]@ == p.1;
                        if k == e {
                            assert(p == (picked.dataset@, picked.ids@[q]@));
                        } else {
                            assert(pairs_before.contains(p));
                        }
                    }
                    if pair_views(pairs@).to_set().contains(p) && !pairs_before.contains(p) {
                        let q = choose|q: int| 0 <= q < j && p == (picked.dataset@, #[trigger] picked.ids@[q]@);
                        assert(picks[e as int].ids@[q]@ == p.1);
                    }
                }
            }
            let knext = Set::new(
                |n: Seq<char>|
                    (exists|k: int| 0 <= k < names.len() && #[trigger] names[k]@ == n) || (exists|k: int|
                        0 <= k < e + 1 && #[trigger] picks[k].dataset@ == n),
            );
            assert(views(keys@).to_set() =~= knext) by {
                assert forall|n: Seq<char>| views(keys@).to_set().contains(n) <==> knext.contains(n) by {
                    if knext.contains(n) && !keys_before.contains(n) {
                        let k = choose|k: int| 0 <= k < e + 1 && #[trigger] picks[k].dataset@ == n;
                        assert(k == e);
                    }
                }
            }
        }
        e = e + 1;
    }
    if keys.len() == 0 {
        proof {
            if sel.datasets@.len() > 0 {
                assert(views(keys@).to_set().contains(names[0]@));
            }
            if sel.entries@.len() > 0 {
                assert(views(keys@).to_set().contains(picks[0].dataset@));
            }
        }
        return Err(owned("没有选择任何可导出的数据"));
    }
    proof {
        assert(entries_error(ds@, picks, e as int) is None);
        assert(views(keys@).to_set().contains(views(keys@)[0]));
        assert(views(keys@).to_set() =~= ticked_names(*sel));
        assert(pair_views(pairs@).to_set() =~= ticked_pairs(*sel));
    }
    Ok((keys, pairs))
}

/// Every pull target named by the descriptors, in order.
pub open spec fn pull_targets(ds: Seq<DatasetDescriptor>) -> Seq<Seq<char>>
    decreases ds.len(),
{
    if ds.len() == 0 {
        Seq::empty()
    } else {
        pull_targets(ds.drop_last()) + ds.last().pulls@.map_values(|p: DatasetPull| p.dataset@)
    }
}

/// Every referred id of the entries, in order.
pub open spec fn entry_refs(es: Seq<CatalogEntry>) -> Seq<Seq<char>>
    decreases es.len(),
{
    if es.len() == 0 {
        Seq::empty()
    } else {
        entry_refs(es.drop_last()) + es.last().dependencies@.map_values(
            |d: crate::data_transfer::types::DependencyEdge| d.to_id@,
        )
    }
}

/// Every referred id of every descriptor, in order.
pub open spec fn all_refs(ds: Seq<DatasetDescriptor>) -> Seq<Seq<char>>
    decreases ds.len(),
{
    if ds.len() == 0 {
        Seq::empty()
    } else {
        all_refs(ds.drop_last()) + entry_refs(ds.last().entries@)
    }
}

/// Every pair of a name of `n` and an id of `t`.
pub open spec fn combinations(n: Seq<Seq<char>>, t: Seq<Seq<char>>) -> Seq<Pair>
    decreases n.len(),
{
    if n.len() == 0 {
        Seq::empty()
    } else {
        combinations(n.drop_last(), t) + t.map_values(|x: Seq<char>| (n.last(), x))
    }
}

proof fn lemma_pull_targets(ds: Seq<DatasetDescriptor>, di: int, pi: int)
    requires
        0 <= di < ds.len(),
        0 <= pi < ds[di].pulls@.len(),
    ensures
        pull_targets(ds).contains(ds[di].pulls@[pi].dataset@),
    decreases ds.len(),
{
    let last = ds.last().pulls@.map_values(|p: DatasetPull| p.dataset@);
    if di == ds.len() - 1 {
        assert(last[pi] == ds[di].pulls@[pi].dataset@);
        assert(pull_targets(ds)[pull_targets(ds.drop_last()).len() + pi] == last[pi]);
    } else {
        lemma_pull_targets(ds.drop_last(), di, pi);
        assert(ds.drop_last()[di] == ds[di]);
        let k = choose|k: int| 0 <= k < pull_targets(ds.drop_last()).len() && pull_targets(ds.drop_last())[k]
            == ds[di].pulls@[pi].dataset@;
        assert(pull_targets(ds)[k] == ds[di].pulls@[pi].dataset@);
    }
}

proof fn lemma_entry_refs(es: Seq<CatalogEntry>, ei: int, k: int)
    requires
        0 <= ei < es.len(),
        0 <= k < es[ei].dependencies@.len(),
    ensures
        entry_refs(es).contains(es[ei].dependencies@[k].to_id@),
    decreases es.len(),
{
    let last = es.last().dependencies@.map_values(|d: crate::data_transfer::types::DependencyEdge| d.to_id@);
    if ei == es.len() - 1 {
        assert(last[k] == es[ei].dependencies@[k].to_id@);
        assert(entry_refs(es)[entry_refs(es.drop_last()).len() + k] == last[k]);
    } else {
        lemma_entry_refs(es.drop_last(), ei, k);
        assert(es.drop_last()[ei] == es[ei]);
        let j = choose|j: int| 0 <= j < entry_refs(es.drop_last()).len() && entry_refs(es.drop_last())[j]
            == es[ei].dependencies@[k].to_id@;
        assert(entry_refs(es)[j] == es[ei].dependencies@[k].to_id@);
    }
}

proof fn lemma_all_refs(ds: Seq<DatasetDescriptor>, di: int, ei: int, k: int)
    requires
        0 <= di < ds.len(),
        0 <= ei < ds[di].entries@.len(),
        0 <= k < ds[di].entries@[ei].dependencies@.len(),
    ensures
        all_refs(ds).contains(ds[di].entries@[ei].dependencies@[k].to_id@),
    decreases ds.len(),
{
    let x = ds[di].entries@[ei].dependencies@[k].to_id@;
    if di == ds.len() - 1 {
        lemma_entry_refs(ds.last().entries@, ei, k);
        let j = choose|j: int| 0 <= j < entry_refs(ds.last().entries@).len() && entry_refs(ds.last().entries@)[j] == x;
        assert(all_refs(ds)[all_refs(ds.drop_last()).len() + j] == x);
    } else {
        assert(ds.drop_last()[di] == ds[di]);
        lemma_all_refs(ds.drop_last(), di, ei, k);
        let j = choose|j: int| 0 <= j < all_refs(ds.drop_last()).len() && all_refs(ds.drop_last())[j] == x;
        assert(all_refs(ds)[j] == x);
    }
}

proof fn lemma_combinations(n: Seq<Seq<char>>, t: Seq<Seq<char>>, a: Seq<char>, b: Seq<char>)
    requires
        n.contains(a),
        t.contains(b),
    ensures
        combinations(n, t).contains((a, b)),
    decreases n.len(),
{
    let j = choose|j: int| 0 <= j < t.len() && t[j] == b;
    if n.last() == a {
        let last = t.map_values(|x: Seq<char>| (n.last(), x));
        assert(last[j] == (a, b));
        assert(combinations(n, t)[combinations(n.drop_last(), t).len() + j] == (a, b));
    } else {
        let i = choose|i: int| 0 <= i < n.len() && n[i] == a;
        assert(n.drop_last()[i] == a);
        lemma_combinations(n.drop_last(), t, a, b);
        let k = choose|k: int| 0 <= k < combinations(n.drop_last(), t).len() && combinations(n.drop_last(), t)[k] == (
        a, b);
        assert(combinations(n, t)[k] == (a, b));
    }
}

/// Facts about the pair an edge pulls in, read off the indices found.
proof fn lemma_edge_target(ds: Seq<DatasetDescriptor>, p: Pair, k: int, di: int, ei: int, pi: int)
    requires
        lookup(ds, p.0) == Some(di),
        first_entry_from(ds[di].entries@, p.1, 0) == Some(ei),
        0 <= k < ds[di].entries@[ei].dependencies@.len(),
        first_pull_from(ds[di].pulls@, ds[di].entries@[ei].dependencies@[k].kind@, 0) == Some(pi),
    ensures
        pull_dataset(ds, p, k) == Some(ds[di].pulls@[pi].dataset@),
        edge_to(ds, p, k) == ds[di].entries@[ei].dependencies@[k].to_id@,
{
}

/// Expands ticked pairs to everything they pull in: a worklist over the
/// pairs found so far, each pair's edges followed once.
fn expand(ds: &Vec<DatasetDescriptor>, keys: Vec<String>, pairs: Vec<(String, String)>) -> (r: Result<
    (Vec<String>, Vec<(String, String)>),
    String,
>)
    requires
        views(keys@).no_duplicates(),
        pair_views(pairs@).no_duplicates(),
        forall|q: int| 0 <= q < pairs@.len() ==> views(keys@).contains(#[trigger] pair_views(pairs@)[q].0),
    ensures
        match r {
            Ok((k2, p2)) => {
                &&& least_closure(ds@, pair_views(pairs@).to_set(), pair_views(p2@).to_set())
                &&& pair_views(p2@).no_duplicates()
                &&& views(k2@).no_duplicates()
                &&& forall|n: Seq<char>| #[trigger] views(k2@).contains(n) <==> (views(keys@).contains(n) || exists|q: int|
                    0 <= q < p2@.len() && #[trigger] pair_views(p2@)[q].0 == n)
                &&& forall|p: Pair, k: int| pair_views(p2@).contains(p) ==> !#[trigger] edge_bad(ds@, p, k)
            },
            Err(m) => exists|p: Pair, k: int|
                reachable(ds@, pair_views(pairs@).to_set(), p) && #[trigger] edge_bad(ds@, p, k) && m@
                    == missing_target_message(p.0, pull_dataset(ds@, p, k).unwrap()),
        },
{
    let ghost init = pair_views(pairs@).to_set();
    let ghost keys0 = views(keys@);
    let ghost names_u = keys0 + pull_targets(ds@);
    let ghost ids_u = pair_views(pairs@).map_values(|p: Pair| p.1) + all_refs(ds@);
    let ghost universe = combinations(names_u, ids_u);
    let ghost bound: int = universe.len() as int;
    let mut keys = keys;
    let mut queue = pairs;
    proof {
        assert forall|i: int| 0 <= i < pair_views(queue@).len() implies universe.contains(#[trigger] pair_views(queue@)[i]) by {
            let p = pair_views(queue@)[i];
            let ka = choose|ka: int| 0 <= ka < keys0.len() && keys0[ka] == p.0;
            assert(names_u[ka] == p.0);
            assert(ids_u[i] == p.1);
            lemma_combinations(names_u, ids_u, p.0, p.1);
        }
        lemma_unique_within(pair_views(queue@), universe);
        assert forall|q: int| 0 <= q < queue@.len() implies reachable(ds@, init, #[trigger] pair_views(queue@)[q]) by {
            assert forall|x: Set<Pair>| init.subset_of(x) && closed(ds@, x) implies #[trigger] x.contains(pair_views(queue@)[q]) by {
                assert(init.contains(pair_views(queue@)[q]));
            }
        }
        assert forall|n: Seq<char>| #[trigger] views(keys@).contains(n) <==> (keys0.contains(n) || exists|q: int|
            0 <= q < queue@.len() && #[trigger] pair_views(queue@)[q].0 == n) by {
            if exists|q: int| 0 <= q < queue@.len() && #[trigger] pair_views(queue@)[q].0 == n {
                let q = choose|q: int| 0 <= q < queue@.len() && #[trigger] pair_views(queue@)[q].0 == n;
                assert(views(keys@).contains(pair_views(pairs@)[q].0));
            }
        }
    }
    let mut head: usize = 0;
    while head < queue.len()
        invariant
            head <= queue@.len(),
            pair_views(queue@).no_duplicates(),
            views(keys@).no_duplicates(),
            init == pair_views(pairs@).to_set(),
            init.subset_of(pair_views(queue@).to_set()),
            names_u == keys0 + pull_targets(ds@),
            ids_u == pair_views(pairs@).map_values(|p: Pair| p.1) + all_refs(ds@),
            universe == combinations(names_u, ids_u),
            bound == universe.len(),
            forall|q: int| 0 <= q < queue@.len() ==> reachable(ds@, init, #[trigger] pair_views(queue@)[q]),
            forall|q: int, k: int| 0 <= q < head && (#[trigger] edge_target(ds@, pair_views(queue@)[q], k)) is Some
                ==> pair_views(queue@).contains(edge_target(ds@, pair_views(queue@)[q], k).unwrap()),
            forall|q: int, k: int| 0 <= q < head ==> !#[trigger] edge_bad(ds@, pair_views(queue@)[q], k),
            forall|n: Seq<char>| #[trigger] views(keys@).contains(n) <==> (keys0.contains(n) || exists|q: int|
                0 <= q < queue@.len() && #[trigger] pair_views(queue@)[q].0 == n),
            forall|q: int| 0 <= q < queue@.len() ==> universe.contains(#[trigger] pair_views(queue@)[q]),
            queue@.len() <= bound,
        decreases 2 * bound - queue@.len() - head,
    {
        let name = queue[head].0.clone();
        let id = queue[head].1.clone();
        let ghost cur: Pair = (name@, id@);
        assert(cur == pair_views(queue@)[head as int]);
        proof {
            lemma_lookup(ds@, name@);
        }
        let found = find_descriptor(ds, name.as_str());
        if found.is_none() {
            proof {
                assert forall|k: int| edge_target(ds@, cur, k) is None && !edge_bad(ds@, cur, k) by {}
            }
            head = head + 1;
            continue;
        }
        let di = found.unwrap();
        let d = &ds[di];
        proof {
            lemma_first_entry(d.entries@, id@, 0);
        }
        let entry_at = find_entry(&d.entries, id.as_str());
        if entry_at.is_none() {
            proof {
                assert forall|k: int| edge_target(ds@, cur, k) is None && !edge_bad(ds@, cur, k) by {}
            }
            head = head + 1;
            continue;
        }
        let ei = entry_at.unwrap();
        let entry = &d.entries[ei];
        let ghost q_before = pair_views(queue@);
        let mut k: usize = 0;
        while k < entry.dependencies.len()
            invariant
                k <= entry.dependencies@.len(),
                head < queue@.len(),
                cur == pair_views(queue@)[head as int],
                di < ds@.len(),
                d == ds@[di as int],
                lookup(ds@, cur.0) == Some(di as int),
                d.name@ == cur.0,
                ei < d.entries@.len(),
                entry == d.entries@[ei as int],
                first_entry_from(d.entries@, cur.1, 0) == Some(ei as int),
                pair_views(queue@).no_duplicates(),
                views(keys@).no_duplicates(),
                init == pair_views(pairs@).to_set(),
                init.subset_of(pair_views(queue@).to_set()),
                names_u == keys0 + pull_targets(ds@),
                ids_u == pair_views(pairs@).map_values(|p: Pair| p.1) + all_refs(ds@),
                universe == combinations(names_u, ids_u),
                bound == universe.len(),
                q_before.len() <= pair_views(queue@).len(),
                forall|q: int| 0 <= q < q_before.len() ==> pair_views(queue@)[q] == q_before[q],
                forall|q: int| 0 <= q < queue@.len() ==> reachable(ds@, init, #[trigger] pair_views(queue@)[q]),
                forall|q: int, j: int| 0 <= q < head && (#[trigger] edge_target(ds@, pair_views(queue@)[q], j)) is Some
                    ==> pair_views(queue@).contains(edge_target(ds@, pair_views(queue@)[q], j).unwrap()),
                forall|q: int, j: int| 0 <= q < head ==> !#[trigger] edge_bad(ds@, pair_views(queue@)[q], j),
                forall|j: int| 0 <= j < k && (#[trigger] edge_target(ds@, cur, j)) is Some ==> pair_views(queue@).contains(
                    edge_target(ds@, cur, j).unwrap(),
                ),
                forall|j: int| 0 <= j < k ==> !#[trigger] edge_bad(ds@, cur, j),
                forall|n: Seq<char>| #[trigger] views(keys@).contains(n) <==> (keys0.contains(n) || exists|q: int|
                    0 <= q < queue@.len() && #[trigger] pair_views(queue@)[q].0 == n),
                forall|q: int| 0 <= q < queue@.len() ==> universe.contains(#[trigger] pair_views(queue@)[q]),
                queue@.len() <= bound,
            decreases entry.dependencies@.len() - k,
        {
            let edge = &entry.dependencies[k];
            proof {
                lemma_first_pull(d.pulls@, edge.kind@, 0);
            }
            let pull_at = find_pull(&d.pulls, edge.kind.as_str());
            if pull_at.is_none() {
                proof {
                    assert(pull_dataset(ds@, cur, k as int) is None);
                }
                k = k + 1;
                continue;
            }
            let pi = pull_at.unwrap();
            let target = d.pulls[pi].dataset.as_str();
            proof {
                lemma_edge_target(ds@, cur, k as int, di as int, ei as int, pi as int);
                lemma_lookup(ds@, target@);
            }
            if find_descriptor(ds, target).is_none() {
                let mut m = owned("数据集 ");
                m.append(d.name.as_str());
                m.append(" 声明的跟随目标 ");
                m.append(target);
                m.append(" 不存在");
                proof {
                    assert(edge_bad(ds@, cur, k as int));
                    assert(reachable(ds@, init, cur));
                }
                return Err(m);
            }
            let ghost tpair: Pair = (target@, edge.to_id@);
            proof {
                assert(edge_target(ds@, cur, k as int) == Some(tpair));
                lemma_pull_targets(ds@, di as int, pi as int);
                lemma_all_refs(ds@, di as int, ei as int, k as int);
                let ka = choose|ka: int| 0 <= ka < pull_targets(ds@).len() && pull_targets(ds@)[ka] == target@;
                assert(names_u[keys0.len() + ka] == target@);
                let kb = choose|kb: int| 0 <= kb < all_refs(ds@).len() && all_refs(ds@)[kb] == edge.to_id@;
                assert(ids_u[pair_views(pairs@).len() + kb] == edge.to_id@);
                lemma_combinations(names_u, ids_u, target@, edge.to_id@);
            }
            let ghost qv = pair_views(queue@);
            let ghost kv = views(keys@);
            assert(forall|n: Seq<char>| #[trigger] kv.contains(n) <==> (keys0.contains(n) || exists|q: int|
                0 <= q < qv.len() && #[trigger] qv[q].0 == n));
            add_key(&mut keys, target);
            let added = add_pair(&mut queue, target, edge.to_id.as_str());
            proof {
                let now = pair_views(queue@);
                if added {
                    assert(now[qv.len() as int] == tpair);
                    assert forall|x: Set<Pair>| init.subset_of(x) && closed(ds@, x) implies #[trigger] x.contains(tpair) by {
                        assert(x.contains(cur));
                        assert(edge_target(ds@, cur, k as int) is Some);
                    }
                    assert forall|q: int| 0 <= q < now.len() implies universe.contains(#[trigger] now[q]) by {
                        if q < qv.len() {
                            assert(now[q] == qv[q]);
                        }
                    }
                    lemma_unique_within(now, universe);
                    assert forall|x: Pair| qv.contains(x) implies now.contains(x) by {
                        let i = choose|i: int| 0 <= i < qv.len() && qv[i] == x;
                        assert(now[i] == x);
                    }
                    assert forall|x: Pair| init.contains(x) implies now.to_set().contains(x) by {
                        assert(qv.to_set().contains(x));
                        assert(now.contains(x));
                    }
                    assert forall|q: int, j: int| 0 <= q < head && (#[trigger] edge_target(ds@, now[q], j)) is Some implies now.contains(
                        edge_target(ds@, now[q], j).unwrap(),
                    ) by {
                        assert(now[q] == qv[q]);
                        assert(qv.contains(edge_target(ds@, qv[q], j).unwrap()));
                    }
                    assert forall|j: int| 0 <= j < k && (#[trigger] edge_target(ds@, cur, j)) is Some implies now.contains(
                        edge_target(ds@, cur, j).unwrap(),
                    ) by {
                        assert(qv.contains(edge_target(ds@, cur, j).unwrap()));
                    }
                } else {
                    assert(qv.contains(tpair));
                }
                assert(now.contains(tpair));
                let qk = choose|qk: int| 0 <= qk < now.len() && now[qk] == tpair;
                assert forall|n: Seq<char>| #[trigger] views(keys@).contains(n) <==> (keys0.contains(n) || exists|q: int|
                    0 <= q < queue@.len() && #[trigger] pair_views(queue@)[q].0 == n) by {
                    let kn = views(keys@);
                    if kn.contains(n) {
                        assert(kn.to_set().contains(n));
                        assert(kv.to_set().insert(target@).contains(n));
                        if n == target@ {
                            assert(now[qk].0 == n);
                        } else {
                            assert(kv.to_set().contains(n));
                            assert(kv.contains(n));
                            if !keys0.contains(n) {
                                let q = choose|q: int| 0 <= q < qv.len() && #[trigger] qv[q].0 == n;
                                assert(now[q] == qv[q]);
                                assert(pair_views(queue@)[q].0 == n);
                            }
                        }
                    }
                    if keys0.contains(n) {
                        assert(kv.contains(n));
                        assert(kv.to_set().contains(n));
                        assert(kn.to_set().contains(n));
                    }
                    if exists|q: int| 0 <= q < queue@.len() && #[trigger] pair_views(queue@)[q].0 == n {
                        let q = choose|q: int| 0 <= q < queue@.len() && #[trigger] pair_views(queue@)[q].0 == n;
                        if q < qv.len() {
                            assert(now[q] == qv[q]);
                            assert(qv[q].0 == n);
                            assert(kv.contains(n));
                            assert(kv.to_set().contains(n));
                        } else {
                            assert(added);
                            assert(now[q] == tpair);
                        }
                        assert(kn.to_set().contains(n));
                    }
                }
            }
            k = k + 1;
        }
        proof {
            assert forall|j: int| (#[trigger] edge_target(ds@, cur, j)) is Some implies pair_views(queue@).contains(
                edge_target(ds@, cur, j).unwrap(),
            ) by {
                if !(0 <= j < entry.dependencies@.len()) {
                    assert(edge_target(ds@, cur, j) is None);
                }
            }
            assert forall|j: int| !#[trigger] edge_bad(ds@, cur, j) by {
                if !(0 <= j < entry.dependencies@.len()) {
                    assert(pull_dataset(ds@, cur, j) is None);
                }
            }
        }
        head = head + 1;
    }
    proof {
        let c = pair_views(queue@).to_set();
        assert forall|p: Pair, k: int| c.contains(p) && (#[trigger] edge_target(ds@, p, k)) is Some implies c.contains(
            edge_target(ds@, p, k).unwrap(),
        ) by {
            let q = choose|q: int| 0 <= q < queue@.len() && pair_views(queue@)[q] == p;
            assert(edge_target(ds@, pair_views(queue@)[q], k) is Some);
        }
        assert forall|p: Pair| c.contains(p) implies reachable(ds@, init, p) by {
            let q = choose|q: int| 0 <= q < queue@.len() && pair_views(queue@)[q] == p;
            assert(reachable(ds@, init, pair_views(queue@)[q]));
        }
        assert forall|p: Pair, k: int| pair_views(queue@).contains(p) implies !#[trigger] edge_bad(ds@, p, k) by {
            let q = choose|q: int| 0 <= q < queue@.len() && pair_views(queue@)[q] == p;
            assert(!edge_bad(ds@, pair_views(queue@)[q], k));
        }
    }
    Ok((keys, queue))
}

/// Names of resolved datasets, in order.
pub open spec fn resolved_names(r: Seq<(String, Vec<String>)>) -> Seq<Seq<char>> {
    r.map_values(|e: (String, Vec<String>)| e.0@)
}

/// The (dataset, id) pairs of a resolved selection.
pub open spec fn resolved_pairs(r: Seq<(String, Vec<String>)>) -> Set<Pair> {
    Set::new(
        |p: Pair| exists|i: int| 0 <= i < r.len() && #[trigger] r[i].0@ == p.0 && views(r[i].1@).contains(p.1),
    )
}

/// Ascending without repeats.
pub open spec fn strictly_sorted(s: Seq<Seq<char>>) -> bool {
    sorted_seqs(s) && s.no_duplicates()
}

/// A sorted permutation of a sequence without repeats has no repeats either,
/// and holds the same items.
proof fn lemma_sorted_permutation(a: Seq<Seq<char>>, b: Seq<Seq<char>>)
    requires
        a.no_duplicates(),
        b.to_multiset() == a.to_multiset(),
    ensures
        b.no_duplicates(),
        forall|x: Seq<char>| b.contains(x) <==> a.contains(x),
{
    broadcast use vstd::seq_lib::group_to_multiset_ensures;
    a.lemma_multiset_has_no_duplicates();
    b.lemma_multiset_has_no_duplicates_conv();
    assert forall|x: Seq<char>| b.contains(x) <==> a.contains(x) by {
        vstd::seq_lib::to_multiset_contains(a, x);
        vstd::seq_lib::to_multiset_contains(b, x);
    }
}

/// The ids paired with `name`, in pair order.
fn ids_for(pairs: &Vec<(String, String)>, name: &str) -> (r: Vec<String>)
    requires
        pair_views(pairs@).no_duplicates(),
    ensures
        views(r@).no_duplicates(),
        forall|id: Seq<char>| #[trigger] views(r@).contains(id) <==> pair_views(pairs@).contains((name@, id)),
{
    let mut out: Vec<String> = Vec::new();
    let mut i: usize = 0;
    while i < pairs.len()
        invariant
            i <= pairs@.len(),
            pair_views(pairs@).no_duplicates(),
            views(out@).no_duplicates(),
            forall|id: Seq<char>| #[trigger] views(out@).contains(id) <==> pair_views(pairs@).subrange(0, i as int).contains(
                (name@, id),
            ),
        decreases pairs@.len() - i,
    {
        let ghost before = views(out@);
        let ghost pv = pair_views(pairs@);
        if str_eq(pairs[i].0.as_str(), name) {
            let id = pairs[i].1.clone();
            proof {
                assert(pv[i as int] == (name@, id@));
                assert(!before.contains(id@)) by {
                    if before.contains(id@) {
                        let k = choose|k: int| 0 <= k < i && #[trigger] pv.subrange(0, i as int)[k] == (name@, id@);
                        assert(pv[k] == pv[i as int]);
                    }
                }
            }
            out.push(id);
            proof {
                assert(views(out@) =~= before.push(id@));
                assert forall|x: Seq<char>| #[trigger] views(out@).contains(x) <==> pv.subrange(0, i + 1).contains((name@, x)) by {
                    if views(out@).contains(x) && x != id@ {
                        let k = choose|k: int| 0 <= k < views(out@).len() && views(out@)[k] == x;
                        if k == before.len() {
                            assert(views(out@)[k] == id@);
                        }
                        assert(before[k] == x);
                        assert(before.contains(x));
                        let j = choose|j: int| 0 <= j < i && #[trigger] pv.subrange(0, i as int)[j] == (name@, x);
                        assert(pv.subrange(0, i + 1)[j] == (name@, x));
                    }
                    if views(out@).contains(x) && x == id@ {
                        assert(pv.subrange(0, i + 1)[i as int] == (name@, x));
                    }
                    if pv.subrange(0, i + 1).contains((name@, x)) {
                        let j = choose|j: int| 0 <= j < i + 1 && #[trigger] pv.subrange(0, i + 1)[j] == (name@, x);
                        if j < i {
                            assert(pv.subrange(0, i as int)[j] == (name@, x));
                            assert(before.contains(x));
                            let k = choose|k: int| 0 <= k < before.len() && before[k] == x;
                            assert(views(out@)[k] == x);
                        } else {
                            assert(views(out@)[before.len() as int] == x);
                        }
                    }
                }
            }
        } else {
            proof {
                assert forall|x: Seq<char>| #[trigger] views(out@).contains(x) <==> pv.subrange(0, i + 1).contains((name@, x)) by {
                    if pv.subrange(0, i + 1).contains((name@, x)) {
                        let j = choose|j: int| 0 <= j < i + 1 && #[trigger] pv.subrange(0, i + 1)[j] == (name@, x);
                        if j == i {
                            assert(pv[i as int].0 == pairs@[i as int].0@);
                        } else {
                            assert(pv.subrange(0, i as int)[j] == (name@, x));
                        }
                    }
                    if before.contains(x) {
                        let j = choose|j: int| 0 <= j < i && #[trigger] pv.subrange(0, i as int)[j] == (name@, x);
                        assert(pv.subrange(0, i + 1)[j] == (name@, x));
                    }
                }
            }
        }
        i = i + 1;
    }
    assert(pair_views(pairs@).subrange(0, pairs@.len() as int) =~= pair_views(pairs@));
    out
}

/// Groups pairs by dataset: names ascending, each with its ids ascending.
fn group(keys: Vec<String>, pairs: &Vec<(String, String)>) -> (r: Vec<(String, Vec<String>)>)
    requires
        views(keys@).no_duplicates(),
        pair_views(pairs@).no_duplicates(),
    ensures
        strictly_sorted(resolved_names(r@)),
        forall|n: Seq<char>| #[trigger] resolved_names(r@).contains(n) <==> views(keys@).contains(n),
        forall|i: int| 0 <= i < r@.len() ==> strictly_sorted(views(#[trigger] r@[i].1@)),
        forall|i: int, id: Seq<char>| 0 <= i < r@.len() ==> (#[trigger] views(r@[i].1@).contains(id) <==> pair_views(
            pairs@,
        ).contains((r@[i].0@, id))),
{
    let ghost kv = views(keys@);
    let names = sort_strings(keys);
    proof {
        lemma_sorted_permutation(kv, views(names@));
    }
    let mut out: Vec<(String, Vec<String>)> = Vec::new();
    let mut i: usize = 0;
    while i < names.len()
        invariant
            i <= names@.len(),
            pair_views(pairs@).no_duplicates(),
            resolved_names(out@) == views(names@).subrange(0, i as int),
            forall|k: int| 0 <= k < out@.len() ==> strictly_sorted(views(#[trigger] out@[k].1@)),
            forall|k: int, id: Seq<char>| 0 <= k < out@.len() ==> (#[trigger] views(out@[k].1@).contains(id) <==> pair_views(
                pairs@,
            ).contains((out@[k].0@, id))),
        decreases names@.len() - i,
    {
        let ids = ids_for(pairs, names[i].as_str());
        let ghost iv = views(ids@);
        let sorted = sort_strings(ids);
        proof {
            lemma_sorted_permutation(iv, views(sorted@));
        }
        let ghost before = out@;
        out.push((names[i].clone(), sorted));
        proof {
            assert(resolved_names(out@) =~= resolved_names(before).push(views(names@)[i as int]));
            assert(views(names@).subrange(0, i + 1) =~= views(names@).subrange(0, i as int).push(views(names@)[i as int]));
            assert forall|k: int, id: Seq<char>| 0 <= k < out@.len() implies (#[trigger] views(out@[k].1@).contains(id)
                <==> pair_views(pairs@).contains((out@[k].0@, id))) by {
                if k < before.len() {
                    assert(out@[k] == before[k]);
                }
            }
        }
        i = i + 1;
    }
    assert(views(names@).subrange(0, names@.len() as int) =~= views(names@));
    out
}

/// The closure of a selection: the ticked entries plus everything they
/// pull in, transitively. Whole datasets may only be ticked when
/// selectable; ticked ids must exist in the catalog; an empty selection is
/// refused; a pull into a dataset that does not exist is refused.
/// Dataset names come ascending, ids ascending within each dataset.
pub fn resolve_selection(descriptors: &Vec<DatasetDescriptor>, selection: &ExportSelection) -> (r: Result<
    ResolvedSelection,
    String,
>)
    ensures
        match datasets_error(descriptors@, selection.datasets@, 0) {
            Some(m) => r is Err && r->Err_0@ == m,
            None => match entries_error(descriptors@, selection.entries@, 0) {
                Some(m) => r is Err && r->Err_0@ == m,
                None => if selection.datasets@.len() == 0 && selection.entries@.len() == 0 {
                    r is Err && r->Err_0@ == "没有选择任何可导出的数据"@
                } else {
                    match r {
                        Ok(res) => {
                            &&& res.include_credentials == selection.include_credentials
                            &&& least_closure(descriptors@, ticked_pairs(*selection), resolved_pairs(res.datasets@))
                            &&& forall|p: Pair, k: int| resolved_pairs(res.datasets@).contains(p) ==> !#[trigger] edge_bad(
                                descriptors@,
                                p,
                                k,
                            )
                            &&& strictly_sorted(resolved_names(res.datasets@))
                            &&& forall|i: int| 0 <= i < res.datasets@.len() ==> strictly_sorted(views(#[trigger] res.datasets@[i].1@))
                            &&& forall|n: Seq<char>| #[trigger] resolved_names(res.datasets@).contains(n) <==> (ticked_names(
                                *selection,
                            ).contains(n) || exists|id: Seq<char>| resolved_pairs(res.datasets@).contains((n, id)))
                        },
                        Err(m) => exists|p: Pair, k: int|
                            reachable(descriptors@, ticked_pairs(*selection), p) && #[trigger] edge_bad(descriptors@, p, k)
                                && m@ == missing_target_message(p.0, pull_dataset(descriptors@, p, k).unwrap()),
                    }
                },
            },
        },
{
    let (keys, pairs) = match ticked(descriptors, selection) {
        Err(m) => return Err(m),
        Ok(t) => t,
    };
    proof {
        assert forall|q: int| 0 <= q < pairs@.len() implies views(keys@).contains(#[trigger] pair_views(pairs@)[q].0) by {
            let p = pair_views(pairs@)[q];
            assert(pair_views(pairs@).to_set().contains(p));
            assert(ticked_names(*selection).contains(p.0));
            assert(views(keys@).to_set().contains(p.0));
        }
    }
    let ghost kv = views(keys@);
    let ghost init = pair_views(pairs@).to_set();
    let (keys2, pairs2) = match expand(descriptors, keys, pairs) {
        Err(m) => return Err(m),
        Ok(t) => t,
    };
    let datasets = group(keys2, &pairs2);
    proof {
        let c = pair_views(pairs2@).to_set();
        assert(resolved_pairs(datasets@) =~= c) by {
            assert forall|p: Pair| resolved_pairs(datasets@).contains(p) <==> c.contains(p) by {
                if resolved_pairs(datasets@).contains(p) {
                    let i = choose|i: int| 0 <= i < datasets@.len() && #[trigger] datasets@[i].0@ == p.0 && views(
                        datasets@[i].1@,
                    ).contains(p.1);
                    assert(pair_views(pairs2@).contains((datasets@[i].0@, p.1)));
                }
                if c.contains(p) {
                    let q = choose|q: int| 0 <= q < pairs2@.len() && pair_views(pairs2@)[q] == p;
                    assert(pair_views(pairs2@)[q].0 == p.0);
                    assert(resolved_names(datasets@).contains(p.0));
                    let i = choose|i: int| 0 <= i < datasets@.len() && resolved_names(datasets@)[i] == p.0;
                    assert(datasets@[i].0@ == p.0);
                    assert(views(datasets@[i].1@).contains(p.1));
                }
            }
        }
        assert forall|n: Seq<char>| #[trigger] resolved_names(datasets@).contains(n) <==> (ticked_names(*selection).contains(
            n,
        ) || exists|id: Seq<char>| resolved_pairs(datasets@).contains((n, id))) by {
            assert(kv.to_set() == ticked_names(*selection));
            if ticked_names(*selection).contains(n) {
                assert(kv.to_set().contains(n));
            }
            if kv.contains(n) {
                assert(kv.to_set().contains(n));
            }
            if exists|id: Seq<char>| resolved_pairs(datasets@).contains((n, id)) {
                let id = choose|id: Seq<char>| resolved_pairs(datasets@).contains((n, id));
                assert(c.contains((n, id)));
                let q = choose|q: int| 0 <= q < pairs2@.len() && pair_views(pairs2@)[q] == (n, id);
                assert(pair_views(pairs2@)[q].0 == n);
            }
            if resolved_names(datasets@).contains(n) && !kv.contains(n) {
                let q = choose|q: int| 0 <= q < pairs2@.len() && #[trigger] pair_views(pairs2@)[q].0 == n;
                let p = pair_views(pairs2@)[q];
                assert(c.contains(p));
                assert(resolved_pairs(datasets@).contains((n, p.1)));
            }
        }
        assert(init == ticked_pairs(*selection));
    }
    Ok(ResolvedSelection { datasets, include_credentials: selection.include_credentials })
}

/// Default selection: whole datasets that are selectable and ticked by
/// default; nothing entry by entry; credentials carried.
pub fn default_selection(descriptors: &Vec<DatasetDescriptor>) -> (r: ExportSelection)
    ensures
        r.entries@.len() == 0,
        r.include_credentials,
        views(r.datasets@) == default_names(descriptors@),
{
    let mut names: Vec<String> = Vec::new();
    let mut i: usize = 0;
    while i < descriptors.len()
        invariant
            i <= descriptors@.len(),
            views(names@) == default_names(descriptors@.subrange(0, i as int)),
        decreases descriptors@.len() - i,
    {
        let d = &descriptors[i];
        proof {
            let sub = descriptors@.subrange(0, i + 1);
            assert(sub.drop_last() =~= descriptors@.subrange(0, i as int));
            assert(sub.last() == descriptors@[i as int]);
        }
        if d.selectable && d.default_selected {
            let ghost before = views(names@);
            names.push(d.name.clone());
            assert(views(names@) =~= before.push(d.name@));
        }
        i = i + 1;
    }
    assert(descriptors@.subrange(0, descriptors@.len() as int) =~= descriptors@);
    ExportSelection { entries: Vec::new(), datasets: names, include_credentials: true }
}

/// Names of the datasets ticked by default, in order.
pub open spec fn default_names(ds: Seq<DatasetDescriptor>) -> Seq<Seq<char>>
    decreases ds.len(),
{
    if ds.len() == 0 {
        Seq::empty()
    } else if ds.last().selectable && ds.last().default_selected {
        default_names(ds.drop_last()).push(ds.last().name@)
    } else {
        default_names(ds.drop_last())
    }
}

/// Planned record counts: each dataset of the resolution with its number of ids.
pub fn planned_counts(resolved: &ResolvedSelection) -> (r: Vec<(String, usize)>)
    ensures
        r@.len() == resolved.datasets@.len(),
        forall|i: int| 0 <= i < r@.len() ==> (#[trigger] r@[i]).0@ == resolved.datasets@[i].0@ && r@[i].1
            == resolved.datasets@[i].1@.len(),
{
    let mut out: Vec<(String, usize)> = Vec::new();
    let mut i: usize = 0;
    while i < resolved.datasets.len()
        invariant
            i <= resolved.datasets@.len(),
            out@.len() == i,
            forall|k: int| 0 <= k < i ==> (#[trigger] out@[k]).0@ == resolved.datasets@[k].0@ && out@[k].1
                == resolved.datasets@[k].1@.len(),
        decreases resolved.datasets@.len() - i,
    {
        out.push((resolved.datasets[i].0.clone(), resolved.datasets[i].1.len()));
        i = i + 1;
    }
    out
}

} // verus!
